use syndicus::{join_step, joins_tasks, scope_result, task_outcome, JoinStep};

fn aborted_task() -> tokio::task::JoinError {
    let runtime = tokio::runtime::Builder::new_current_thread()
        .enable_all()
        .build()
        .unwrap();
    runtime.block_on(async {
        let handle = tokio::spawn(async {
            tokio::time::sleep(std::time::Duration::from_secs(60)).await;
            Ok::<(), String>(())
        });
        handle.abort();
        handle.await.unwrap_err()
    })
}

#[test]
fn completed_task_gives_its_result() {
    assert_eq!(task_outcome::<String>(Ok(Ok(()))), Ok(()));
    assert_eq!(
        task_outcome::<String>(Ok(Err("failed".to_string()))),
        Err("failed".to_string())
    );
}

#[test]
fn aborted_task_counts_as_success() {
    let error = aborted_task();
    assert!(error.is_cancelled());
    assert_eq!(task_outcome::<String>(Err(error)), Ok(()));
}

#[test]
fn join_steps() {
    assert!(matches!(join_step::<String>(None), JoinStep::Finished));
    assert!(matches!(join_step::<String>(Some(Ok(()))), JoinStep::Next));
    match join_step(Some(Err("boom".to_string()))) {
        JoinStep::Abort(e) => assert_eq!(e, "boom"),
        _ => panic!("expected an abort"),
    }
}

#[test]
fn tasks_are_joined_only_after_a_successful_body() {
    assert!(joins_tasks(&Ok::<u32, String>(1)));
    assert!(!joins_tasks(&Err::<u32, String>("no".to_string())));
}

#[test]
fn scope_results() {
    assert_eq!(scope_result::<u32, String>(Ok(7), Ok(())), Ok(7));
    assert_eq!(
        scope_result::<u32, String>(Ok(7), Err("task".to_string())),
        Err("task".to_string())
    );
    assert_eq!(
        scope_result::<u32, String>(Err("body".to_string()), Ok(())),
        Err("body".to_string())
    );
    assert_eq!(
        scope_result::<u32, String>(Err("body".to_string()), Err("task".to_string())),
        Err("body".to_string())
    );
}
