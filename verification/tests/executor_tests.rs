use sqlshuffle::executor::{resolve_db_url, ExecError, Executor};
use sqlshuffle::tasks::{gen_all_permutations, SQLStatement};

fn two_client_scripts() -> Vec<Vec<SQLStatement>> {
    vec![
        vec![
            SQLStatement { client_id: 0, stmt: "A1".to_string() },
            SQLStatement { client_id: 0, stmt: "A2".to_string() },
        ],
        vec![SQLStatement { client_id: 1, stmt: "B1".to_string() }],
    ]
}

#[test]
fn reserve_is_monotone_and_idempotent() {
    let mut exec = Executor::new("mysql://db.invalid/test");
    assert_eq!(exec.nb_clients, 0);
    assert_eq!(exec.reserve_clients(2), 2);
    exec.client_connected();
    exec.client_connected();
    assert_eq!(exec.nb_clients, 2);
    // need already covered: no new connections
    assert_eq!(exec.reserve_clients(2), 0);
    assert_eq!(exec.reserve_clients(1), 0);
    assert_eq!(exec.reserve_clients(0), 0);
    // a bigger need only adds the difference; the pool never shrank
    assert_eq!(exec.reserve_clients(5), 3);
    assert_eq!(exec.nb_clients, 2);
}

#[test]
fn lookup_client_bounds_check() {
    let mut exec = Executor::new("mysql://db.invalid/test");
    exec.client_connected();
    assert_eq!(exec.lookup_client(0), Ok(0));
    assert_eq!(
        exec.lookup_client(1),
        Err(ExecError::InsufficientClients { expected: 1, available: 1 })
    );
}

#[test]
fn fail_fast_stops_run_at_first_failure() {
    let tasks = gen_all_permutations(&two_client_scripts());
    assert_eq!(tasks.len(), 3);
    let mut exec = Executor::new("mysql://db.invalid/test");
    assert!(exec.exit_on_fail);

    let mut tasks_attempted: usize = 0;
    let mut executed_ok: usize = 0;
    let mut fatal = false;
    for mut task in tasks {
        tasks_attempted += 1;
        let missing = exec.reserve_clients(task.nb_clients());
        for _ in 0..missing {
            exec.client_connected();
        }
        let mut index: usize = 0;
        while let Some(stmt) = task.next() {
            assert!(exec.lookup_client(stmt.client_id).is_ok());
            // injected fault: the second statement of the first task fails
            let ok = !(task.id() == 0 && index == 1);
            if ok {
                executed_ok += 1;
            }
            index += 1;
            if exec.should_abort(ok) {
                fatal = true;
                break;
            }
        }
        if fatal {
            break;
        }
    }
    assert!(fatal);
    // exactly one statement of the first task ran before the failure
    assert_eq!(executed_ok, 1);
    // no later task was attempted
    assert_eq!(tasks_attempted, 1);
}

#[test]
fn continue_mode_attempts_every_statement() {
    let tasks = gen_all_permutations(&two_client_scripts());
    assert_eq!(tasks.len(), 3);
    let mut exec = Executor::new("mysql://db.invalid/test");
    exec.set_exit_on_fail(false);

    let mut failures: Vec<(usize, usize)> = Vec::new();
    let mut fatal = false;
    let mut tasks_completed: usize = 0;
    for mut task in tasks {
        let missing = exec.reserve_clients(task.nb_clients());
        for _ in 0..missing {
            exec.client_connected();
        }
        let mut index: usize = 0;
        let mut attempted: usize = 0;
        while let Some(stmt) = task.next() {
            assert!(exec.lookup_client(stmt.client_id).is_ok());
            // injected faults at several points across several tasks
            let ok = !((task.id() == 0 && index == 1) || (task.id() == 2 && index == 0));
            attempted += 1;
            if !ok {
                failures.push((task.id(), index));
            }
            index += 1;
            if exec.should_abort(ok) {
                fatal = true;
                break;
            }
        }
        assert_eq!(attempted, 3);
        tasks_completed += 1;
    }
    // every task ran to completion, all failures were recorded, no fatal abort
    assert!(!fatal);
    assert_eq!(tasks_completed, 3);
    assert_eq!(failures, vec![(0, 1), (2, 0)]);
}

#[test]
fn db_url_resolution_precedence() {
    let flag = Some("mysql://from-flag".to_string());
    let env = Some("mysql://from-env".to_string());
    assert_eq!(
        resolve_db_url(flag.clone(), env.clone()),
        Ok("mysql://from-flag".to_string())
    );
    assert_eq!(resolve_db_url(None, env), Ok("mysql://from-env".to_string()));
    assert_eq!(resolve_db_url(None, None), Err(ExecError::MissingDbUrl));
}
