use sqlshuffle::tasks::{gen_all_permutations, script_from_texts, SQLStatement, Task};

fn scripts_from(texts: Vec<Vec<&str>>) -> Vec<Vec<SQLStatement>> {
    let mut scripts: Vec<Vec<SQLStatement>> = Vec::new();
    for (i, script) in texts.into_iter().enumerate() {
        let mut stmts: Vec<SQLStatement> = Vec::new();
        for t in script {
            stmts.push(SQLStatement { client_id: i, stmt: t.to_string() });
        }
        scripts.push(stmts);
    }
    scripts
}

fn task_pairs(task: &Task) -> Vec<(usize, String)> {
    task.sql_stmts.iter().map(|s| (s.client_id, s.stmt.clone())).collect()
}

#[test]
fn test_permute() {
    let sql_scripts: Vec<_> = vec![vec![1, 2], vec![3, 6], vec![4, 5]]
        .into_iter()
        .enumerate()
        .map(|(i, s)| {
            s.into_iter()
                .map(|v: i32| SQLStatement {
                    client_id: i,
                    stmt: v.to_string(),
                })
                .collect()
        })
        .collect();

    let tasks = gen_all_permutations(&sql_scripts);
    assert_eq!(90, tasks.len());
}

#[test]
fn two_scripts_exact_order() {
    let scripts = scripts_from(vec![vec!["A1", "A2"], vec!["B1"]]);
    let tasks = gen_all_permutations(&scripts);
    assert_eq!(tasks.len(), 3);
    let expected: Vec<Vec<(usize, &str)>> = vec![
        vec![(0, "A1"), (0, "A2"), (1, "B1")],
        vec![(0, "A1"), (1, "B1"), (0, "A2")],
        vec![(1, "B1"), (0, "A1"), (0, "A2")],
    ];
    for (j, task) in tasks.iter().enumerate() {
        assert_eq!(task.id(), j);
        assert_eq!(task.nb_clients(), 2);
        let got = task_pairs(task);
        assert_eq!(got.len(), 3);
        let want: Vec<(usize, String)> =
            expected[j].iter().map(|(c, t)| (*c, t.to_string())).collect();
        assert_eq!(got, want);
        let client0: Vec<String> = got
            .iter()
            .filter(|(c, _)| *c == 0)
            .map(|(_, t)| t.clone())
            .collect();
        assert_eq!(client0, vec!["A1".to_string(), "A2".to_string()]);
        let client1: Vec<String> = got
            .iter()
            .filter(|(c, _)| *c == 1)
            .map(|(_, t)| t.clone())
            .collect();
        assert_eq!(client1, vec!["B1".to_string()]);
    }
}

#[test]
fn counts_match_multinomial() {
    // lengths [2, 1] -> 3!/(2!1!) = 3
    let scripts = scripts_from(vec![vec!["a", "b"], vec!["c"]]);
    assert_eq!(gen_all_permutations(&scripts).len(), 3);
    // lengths [2, 2] -> 4!/(2!2!) = 6
    let scripts = scripts_from(vec![vec!["a", "b"], vec!["c", "d"]]);
    assert_eq!(gen_all_permutations(&scripts).len(), 6);
    // lengths [3] -> 1
    let scripts = scripts_from(vec![vec!["a", "b", "c"]]);
    assert_eq!(gen_all_permutations(&scripts).len(), 1);
}

#[test]
fn no_scripts_yield_one_empty_task() {
    let scripts: Vec<Vec<SQLStatement>> = Vec::new();
    let tasks = gen_all_permutations(&scripts);
    assert_eq!(tasks.len(), 1);
    assert_eq!(tasks[0].sql_stmts.len(), 0);
    assert_eq!(tasks[0].id(), 0);
    assert_eq!(tasks[0].nb_clients(), 0);
}

#[test]
fn empty_scripts_contribute_nothing() {
    let scripts = scripts_from(vec![vec![], vec!["X"], vec![]]);
    let tasks = gen_all_permutations(&scripts);
    assert_eq!(tasks.len(), 1);
    let got = task_pairs(&tasks[0]);
    assert_eq!(got, vec![(1, "X".to_string())]);
    // required_client_count stays the script count, not the ids in use
    assert_eq!(tasks[0].nb_clients(), 3);
}

#[test]
fn every_task_has_total_length() {
    let scripts = scripts_from(vec![vec!["a", "b"], vec!["c"], vec!["d", "e", "f"]]);
    let tasks = gen_all_permutations(&scripts);
    // 6!/(2!1!3!) = 60
    assert_eq!(tasks.len(), 60);
    for task in &tasks {
        assert_eq!(task.sql_stmts.len(), 6);
    }
}

#[test]
fn per_client_subsequences_keep_script_order() {
    let scripts = scripts_from(vec![vec!["a1", "a2"], vec!["b1", "b2"], vec!["c1"]]);
    let tasks = gen_all_permutations(&scripts);
    for task in &tasks {
        for (c, script) in scripts.iter().enumerate() {
            let sub: Vec<String> = task
                .sql_stmts
                .iter()
                .filter(|s| s.client_id == c)
                .map(|s| s.stmt.clone())
                .collect();
            let want: Vec<String> = script.iter().map(|s| s.stmt.clone()).collect();
            assert_eq!(sub, want);
        }
    }
}

#[test]
fn tasks_are_pairwise_distinct() {
    // identical statement texts in different scripts still give distinct
    // interleavings, because the client tag differs
    let scripts = scripts_from(vec![vec!["S", "S"], vec!["S", "S"]]);
    let tasks = gen_all_permutations(&scripts);
    assert_eq!(tasks.len(), 6);
    let seqs: Vec<Vec<(usize, String)>> = tasks.iter().map(task_pairs).collect();
    for p in 0..seqs.len() {
        for q in (p + 1)..seqs.len() {
            assert_ne!(seqs[p], seqs[q]);
        }
    }
}

#[test]
fn task_ids_count_up_from_zero() {
    let scripts = scripts_from(vec![vec!["a", "b"], vec!["c", "d"]]);
    let tasks = gen_all_permutations(&scripts);
    for (j, task) in tasks.iter().enumerate() {
        assert_eq!(task.id(), j);
    }
}

#[test]
fn scripts_tag_statements_with_their_client() {
    let script = script_from_texts(4, vec!["first".to_string(), "second".to_string()]);
    assert_eq!(script.len(), 2);
    assert_eq!(script[0].client_id, 4);
    assert_eq!(script[0].stmt, "first");
    assert_eq!(script[1].client_id, 4);
    assert_eq!(script[1].stmt, "second");
}

#[test]
fn next_consumes_and_exhausts() {
    let mut task = Task::new(
        7,
        1,
        vec![
            SQLStatement { client_id: 0, stmt: "one".to_string() },
            SQLStatement { client_id: 0, stmt: "two".to_string() },
        ],
    );
    assert_eq!(task.id(), 7);
    let first = task.next().unwrap();
    assert_eq!(first.stmt, "one");
    let second = task.next().unwrap();
    assert_eq!(second.stmt, "two");
    assert!(task.next().is_none());
    assert!(task.next().is_none());
}

#[test]
fn reset_replays_identical_sequence() {
    let scripts = scripts_from(vec![vec!["a", "b"], vec!["c"]]);
    let tasks = gen_all_permutations(&scripts);
    for mut task in tasks {
        let mut first: Vec<(usize, String)> = Vec::new();
        while let Some(s) = task.next() {
            first.push((s.client_id, s.stmt));
        }
        assert_eq!(first.len(), 3);
        task.reset();
        let mut second: Vec<(usize, String)> = Vec::new();
        while let Some(s) = task.next() {
            second.push((s.client_id, s.stmt));
        }
        assert_eq!(first, second);
    }
}
