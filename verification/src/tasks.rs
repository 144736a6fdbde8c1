use vstd::prelude::*;

verus! {

/// Mathematical view of one statement: the client that must run it and its text.
pub ghost struct StmtView {
    pub client_id: int,
    pub text: Seq<char>,
}

/// One SQL statement, tagged with the client that will execute it.
#[derive(Debug)]
pub struct SQLStatement {
    /// The client which will execute the statement.
    pub client_id: usize,
    pub stmt: String,
}

impl View for SQLStatement {
    type V = StmtView;

    open spec fn view(&self) -> StmtView {
        StmtView { client_id: self.client_id as int, text: self.stmt@ }
    }
}

impl Clone for SQLStatement {
    fn clone(&self) -> (r: Self)
        ensures
            r@ == self@,
    {
        SQLStatement { client_id: self.client_id, stmt: self.stmt.clone() }
    }
}

/// View of one script: its statements in order, as mathematical values.
pub open spec fn script_view(s: Seq<SQLStatement>) -> Seq<StmtView> {
    s.map_values(|x: SQLStatement| x@)
}

/// View of a list of scripts.
pub open spec fn scripts_view(ss: Seq<Vec<SQLStatement>>) -> Seq<Seq<StmtView>> {
    ss.map_values(|v: Vec<SQLStatement>| script_view(v@))
}

/// Sum of the lengths of the scripts `rem[i..]`.
pub open spec fn total_from(rem: Seq<Seq<StmtView>>, i: int) -> nat
    decreases rem.len() - i,
{
    if i < 0 || i >= rem.len() {
        0
    } else {
        rem[i].len() + total_from(rem, i + 1)
    }
}

/// Total number of statements over all scripts.
pub open spec fn total_len(rem: Seq<Seq<StmtView>>) -> nat {
    total_from(rem, 0)
}

/// Replacing script `i` changes the suffix sums from `j` on by the length
/// difference, and leaves later suffixes alone.
pub proof fn lemma_total_from_update(rem: Seq<Seq<StmtView>>, i: int, v: Seq<StmtView>, j: int)
    requires
        0 <= j,
        0 <= i < rem.len(),
    ensures
        j <= i ==> total_from(rem.update(i, v), j) + rem[i].len() == total_from(rem, j) + v.len(),
        j > i ==> total_from(rem.update(i, v), j) == total_from(rem, j),
    decreases rem.len() - j,
{
    if j < rem.len() {
        lemma_total_from_update(rem, i, v, j + 1);
    }
}

/// All the order-preserving interleavings of the scripts `rem`, each script's
/// own order kept, listed in the deterministic order that the generator uses:
/// at each step the next statement is drawn from the lowest-indexed script
/// first.
pub open spec fn shuffles(rem: Seq<Seq<StmtView>>) -> Seq<Seq<StmtView>>
    decreases total_len(rem), rem.len() + 1,
{
    if total_len(rem) == 0 {
        seq![Seq::<StmtView>::empty()]
    } else {
        shuffles_from(rem, 0)
    }
}

/// The interleavings of `rem` whose first statement comes from a script with
/// index at least `i`.
pub open spec fn shuffles_from(rem: Seq<Seq<StmtView>>, i: int) -> Seq<Seq<StmtView>>
    decreases total_len(rem), rem.len() - i,
    via shuffles_from_decreases
{
    if i < 0 || i >= rem.len() {
        Seq::empty()
    } else if rem[i].len() == 0 {
        shuffles_from(rem, i + 1)
    } else {
        shuffles(rem.update(i, rem[i].drop_first())).map_values(
            |s: Seq<StmtView>| seq![rem[i][0]] + s,
        ) + shuffles_from(rem, i + 1)
    }
}

#[via_fn]
proof fn shuffles_from_decreases(rem: Seq<Seq<StmtView>>, i: int) {
    if 0 <= i < rem.len() && rem[i].len() > 0 {
        lemma_total_from_update(rem, i, rem[i].drop_first(), 0);
        assert(total_len(rem.update(i, rem[i].drop_first())) < total_len(rem));
        assert(total_from(rem, i) > 0) by {
            lemma_total_from_bounds(rem, i);
        }
        assert(total_len(rem) > 0) by {
            lemma_total_from_monotone(rem, 0, i);
        }
    }
}

/// A script's own length is part of the suffix sum that starts at it.
pub proof fn lemma_total_from_bounds(rem: Seq<Seq<StmtView>>, i: int)
    requires
        0 <= i < rem.len(),
    ensures
        total_from(rem, i) >= rem[i].len(),
{
}

/// Suffix sums only shrink as the start index grows.
pub proof fn lemma_total_from_monotone(rem: Seq<Seq<StmtView>>, i: int, j: int)
    requires
        0 <= i <= j,
    ensures
        total_from(rem, i) >= total_from(rem, j),
    decreases j - i,
{
    if i < j {
        lemma_total_from_monotone(rem, i + 1, j);
    }
}

/// One interleaving of all scripts' statements: consumed once via `next`,
/// restartable via `reset`.
#[derive(Debug)]
pub struct Task {
    pub id: usize,
    /// The number of clients needed to run the task.
    pub nb_clients: usize,
    pub cursor: usize,
    pub sql_stmts: Vec<SQLStatement>,
}

impl Task {
    /// The task's statement sequence, as mathematical values.
    pub open spec fn elements(&self) -> Seq<StmtView> {
        self.sql_stmts@.map_values(|s: SQLStatement| s@)
    }

    /// What a full consumption from the current cursor will still produce.
    pub open spec fn remaining(&self) -> Seq<StmtView> {
        self.elements().skip(self.cursor as int)
    }

    /// Every statement names a client below the task's declared client count,
    /// so a pool of `nb_clients` connections can execute the whole task.
    pub open spec fn wf(&self) -> bool {
        forall|i: int|
            0 <= i < self.elements().len() ==> 0 <= #[trigger] self.elements()[i].client_id
                < self.nb_clients as int
    }

    pub fn new(id: usize, nb_clients: usize, sql_stmts: Vec<SQLStatement>) -> (t: Task)
        ensures
            t.id == id,
            t.nb_clients == nb_clients,
            t.cursor == 0,
            t.sql_stmts@ == sql_stmts@,
    {
        Task { id, nb_clients, cursor: 0, sql_stmts }
    }

    pub fn id(&self) -> (r: usize)
        ensures
            r == self.id,
    {
        self.id
    }

    pub fn nb_clients(&self) -> (r: usize)
        ensures
            r == self.nb_clients,
    {
        self.nb_clients
    }

    /// Rewinds the cursor so the same statement sequence can be replayed.
    pub fn reset(&mut self)
        ensures
            final(self).cursor == 0,
            final(self).id == old(self).id,
            final(self).nb_clients == old(self).nb_clients,
            final(self).sql_stmts@ == old(self).sql_stmts@,
            final(self).remaining() == final(self).elements(),
    {
        self.cursor = 0;
        proof {
            assert(self.remaining() =~= self.elements());
        }
    }

    /// Returns the statement at the cursor and advances, or `None` once the
    /// task is exhausted. The element sequence itself never changes.
    pub fn next(&mut self) -> (r: Option<SQLStatement>)
        ensures
            final(self).id == old(self).id,
            final(self).nb_clients == old(self).nb_clients,
            final(self).sql_stmts@ == old(self).sql_stmts@,
            old(self).cursor < old(self).elements().len() ==> {
                &&& r is Some
                &&& r->Some_0@ == old(self).elements()[old(self).cursor as int]
                &&& final(self).cursor == old(self).cursor + 1
                &&& old(self).remaining() == seq![r->Some_0@] + final(self).remaining()
            },
            old(self).cursor >= old(self).elements().len() ==> {
                &&& r is None
                &&& final(self).cursor == old(self).cursor
            },
    {
        if self.cursor >= self.sql_stmts.len() {
            return None;
        }
        let stmt = self.sql_stmts[self.cursor].clone();
        self.cursor = self.cursor + 1;
        proof {
            assert(old(self).remaining() =~= seq![stmt@] + self.remaining());
        }
        Some(stmt)
    }
}

/// Builds one client's script from parsed statement texts: every statement is
/// tagged with the client id of the script it came from, in the given order.
pub fn script_from_texts(client_id: usize, texts: Vec<String>) -> (r: Vec<SQLStatement>)
    ensures
        r@.len() == texts@.len(),
        forall|j: int|
            0 <= j < r@.len() ==> #[trigger] r@[j]@ == (StmtView {
                client_id: client_id as int,
                text: texts@[j]@,
            }),
{
    let mut r: Vec<SQLStatement> = Vec::new();
    let mut i: usize = 0;
    while i < texts.len()
        invariant
            i <= texts@.len(),
            r@.len() == i,
            forall|j: int|
                0 <= j < i ==> #[trigger] r@[j]@ == (StmtView {
                    client_id: client_id as int,
                    text: texts@[j]@,
                }),
        decreases texts@.len() - i,
    {
        r.push(SQLStatement { client_id, stmt: texts[i].clone() });
        i = i + 1;
    }
    r
}

/// What is left of each script once the first `cursors[i]` statements of
/// script `i` are consumed.
pub open spec fn rem_views(sv: Seq<Seq<StmtView>>, cursors: Seq<usize>) -> Seq<Seq<StmtView>> {
    Seq::new(sv.len(), |i: int| sv[i].skip(cursors[i] as int))
}

/// The remaining-statement state of the generator, straight from its inputs.
pub open spec fn gen_state(scripts: Seq<Vec<SQLStatement>>, cursors: Seq<usize>) -> Seq<
    Seq<StmtView>,
> {
    rem_views(scripts_view(scripts), cursors)
}

fn clone_stmts(src: &Vec<SQLStatement>) -> (r: Vec<SQLStatement>)
    ensures
        script_view(r@) == script_view(src@),
{
    let mut r: Vec<SQLStatement> = Vec::new();
    let mut idx: usize = 0;
    while idx < src.len()
        invariant
            idx <= src@.len(),
            r@.len() == idx,
            forall|j: int| 0 <= j < idx ==> #[trigger] r@[j]@ == src@[j]@,
        decreases src@.len() - idx,
    {
        r.push(src[idx].clone());
        idx = idx + 1;
    }
    proof {
        assert(script_view(r@) =~= script_view(src@));
    }
    r
}

fn permute_all(
    scripts: &Vec<Vec<SQLStatement>>,
    cursors: &mut Vec<usize>,
    stmts: &mut Vec<SQLStatement>,
    tasks: &mut Vec<Task>,
    n: usize,
)
    requires
        old(cursors)@.len() == scripts@.len(),
        forall|i: int|
            0 <= i < scripts@.len() ==> #[trigger] old(cursors)@[i] <= scripts@[i]@.len(),
        n == old(stmts)@.len() + total_len(gen_state(scripts@, old(cursors)@)),
        forall|j: int| 0 <= j < old(tasks)@.len() ==> (#[trigger] old(tasks)@[j]).id == j,
    ensures
        final(cursors)@ == old(cursors)@,
        final(stmts)@ == old(stmts)@,
        final(tasks)@.len() == old(tasks)@.len() + shuffles(
            gen_state(scripts@, old(cursors)@),
        ).len(),
        forall|j: int| 0 <= j < old(tasks)@.len() ==> final(tasks)@[j] == old(tasks)@[j],
        forall|j: int|
            0 <= j < shuffles(gen_state(scripts@, old(cursors)@)).len() ==> {
                let t = #[trigger] final(tasks)@[old(tasks)@.len() + j];
                &&& t.elements() == script_view(old(stmts)@) + shuffles(
                    gen_state(scripts@, old(cursors)@),
                )[j]
                &&& t.id == old(tasks)@.len() + j
                &&& t.nb_clients == scripts@.len()
                &&& t.cursor == 0
            },
    decreases total_len(gen_state(scripts@, old(cursors)@)), scripts@.len() + 1,
{
    let ghost rem = gen_state(scripts@, old(cursors)@);
    if stmts.len() == n {
        let cloned = clone_stmts(stmts);
        let t = Task::new(tasks.len(), scripts.len(), cloned);
        tasks.push(t);
        proof {
            assert(total_len(rem) == 0);
            assert(shuffles(rem).len() == 1);
            assert(script_view(old(stmts)@) + shuffles(rem)[0] =~= script_view(old(stmts)@));
        }
    } else {
        permute_from(scripts, cursors, stmts, tasks, n, 0);
    }
}

fn permute_from(
    scripts: &Vec<Vec<SQLStatement>>,
    cursors: &mut Vec<usize>,
    stmts: &mut Vec<SQLStatement>,
    tasks: &mut Vec<Task>,
    n: usize,
    i: usize,
)
    requires
        old(cursors)@.len() == scripts@.len(),
        forall|k: int|
            0 <= k < scripts@.len() ==> #[trigger] old(cursors)@[k] <= scripts@[k]@.len(),
        n == old(stmts)@.len() + total_len(gen_state(scripts@, old(cursors)@)),
        forall|j: int| 0 <= j < old(tasks)@.len() ==> (#[trigger] old(tasks)@[j]).id == j,
        i <= scripts@.len(),
        total_len(gen_state(scripts@, old(cursors)@)) > 0,
    ensures
        final(cursors)@ == old(cursors)@,
        final(stmts)@ == old(stmts)@,
        final(tasks)@.len() == old(tasks)@.len() + shuffles_from(
            gen_state(scripts@, old(cursors)@),
            i as int,
        ).len(),
        forall|j: int| 0 <= j < old(tasks)@.len() ==> final(tasks)@[j] == old(tasks)@[j],
        forall|j: int|
            0 <= j < shuffles_from(gen_state(scripts@, old(cursors)@), i as int).len() ==> {
                let t = #[trigger] final(tasks)@[old(tasks)@.len() + j];
                &&& t.elements() == script_view(old(stmts)@) + shuffles_from(
                    gen_state(scripts@, old(cursors)@),
                    i as int,
                )[j]
                &&& t.id == old(tasks)@.len() + j
                &&& t.nb_clients == scripts@.len()
                &&& t.cursor == 0
            },
    decreases total_len(gen_state(scripts@, old(cursors)@)), scripts@.len() - i,
{
    let ghost rem = gen_state(scripts@, old(cursors)@);
    if i == scripts.len() {
        return ;
    }
    let cur = cursors[i];
    if cur < scripts[i].len() {
        let ghost rem_dec = rem.update(i as int, rem[i as int].drop_first());
        let stmt = scripts[i][cur].clone();
        stmts.push(stmt);
        cursors[i] = cur + 1;
        proof {
            assert(gen_state(scripts@, cursors@) =~= rem_dec) by {
                assert forall|k: int| 0 <= k < rem.len() implies gen_state(scripts@, cursors@)[k]
                    =~= rem_dec[k] by {
                    if k == i as int {
                        assert(scripts_view(scripts@)[k].skip(cur + 1) =~= scripts_view(
                            scripts@,
                        )[k].skip(cur as int).drop_first());
                    }
                }
            }
            lemma_total_from_update(rem, i as int, rem[i as int].drop_first(), 0);
        }
        let ghost tasks_before = tasks@;
        let ghost stmts_pushed = stmts@;
        permute_all(scripts, cursors, stmts, tasks, n);
        cursors[i] = cur;
        let _ = stmts.pop();
        let ghost tasks_mid = tasks@;
        let ghost nb = shuffles(rem_dec).len();
        proof {
            assert(cursors@ =~= old(cursors)@);
            assert(stmts@ =~= old(stmts)@);
            assert(script_view(stmts_pushed) =~= script_view(old(stmts)@) + seq![stmt@]);
            assert(rem[i as int][0] == stmt@);
            assert(tasks_mid.len() == tasks_before.len() + nb);
            assert forall|j: int| 0 <= j < nb implies {
                let t = #[trigger] tasks_mid[tasks_before.len() + j];
                &&& t.elements() == script_view(old(stmts)@) + shuffles_from(rem, i as int)[j]
                &&& t.id == tasks_before.len() + j
                &&& t.nb_clients == scripts@.len()
                &&& t.cursor == 0
            } by {
                let t = tasks_mid[tasks_before.len() + j];
                assert(t.elements() == script_view(stmts_pushed) + shuffles(rem_dec)[j]);
                assert(shuffles_from(rem, i as int)[j] == seq![rem[i as int][0]] + shuffles(
                    rem_dec,
                )[j]);
                assert((script_view(old(stmts)@) + seq![stmt@]) + shuffles(rem_dec)[j] =~= script_view(
                    old(stmts)@,
                ) + (seq![stmt@] + shuffles(rem_dec)[j]));
            }
            assert forall|p: int| 0 <= p < tasks_mid.len() implies (#[trigger] tasks_mid[p]).id
                == p by {
                if p < tasks_before.len() {
                    assert(tasks_mid[p] == tasks_before[p]);
                } else {
                    let j = p - tasks_before.len();
                    assert(tasks_mid[tasks_before.len() + j].id == tasks_before.len() + j);
                }
            }
        }
        permute_from(scripts, cursors, stmts, tasks, n, i + 1);
        proof {
            let rest = shuffles_from(rem, i + 1);
            assert(shuffles_from(rem, i as int).len() == nb + rest.len());
            assert forall|j: int| 0 <= j < shuffles_from(rem, i as int).len() implies {
                let t = #[trigger] tasks@[old(tasks)@.len() + j];
                &&& t.elements() == script_view(old(stmts)@) + shuffles_from(rem, i as int)[j]
                &&& t.id == old(tasks)@.len() + j
                &&& t.nb_clients == scripts@.len()
                &&& t.cursor == 0
            } by {
                if j < nb {
                    assert(tasks@[tasks_before.len() + j] == tasks_mid[tasks_before.len() + j]);
                } else {
                    let p = j - nb;
                    assert(tasks@[tasks_mid.len() + p] == tasks@[old(tasks)@.len() + j]);
                    let t = tasks@[tasks_mid.len() + p];
                    assert(t.elements() == script_view(old(stmts)@) + rest[p]);
                    assert(shuffles_from(rem, i as int)[j] == rest[p]);
                }
            }
        }
    } else {
        proof {
            assert(rem[i as int].len() == 0);
        }
        permute_from(scripts, cursors, stmts, tasks, n, i + 1);
    }
}

/// Generates every order-preserving interleaving of the given scripts, as
/// `Task`s numbered in generation order. The result is exactly the sequence
/// `shuffles(...)` of the scripts' views: same count, same contents, same
/// deterministic order.
pub fn gen_all_permutations(sql_scripts: &Vec<Vec<SQLStatement>>) -> (tasks: Vec<Task>)
    requires
        total_len(scripts_view(sql_scripts@)) <= usize::MAX,
    ensures
        tasks@.len() == shuffles(scripts_view(sql_scripts@)).len(),
        forall|j: int|
            0 <= j < tasks@.len() ==> {
                let t = #[trigger] tasks@[j];
                &&& t.elements() == shuffles(scripts_view(sql_scripts@))[j]
                &&& t.id == j
                &&& t.nb_clients == sql_scripts@.len()
                &&& t.cursor == 0
            },
{
    let ghost sv = scripts_view(sql_scripts@);
    let mut n: usize = 0;
    let mut i: usize = 0;
    while i < sql_scripts.len()
        invariant
            i <= sql_scripts@.len(),
            n + total_from(sv, i as int) == total_len(sv),
            total_len(sv) <= usize::MAX,
            sv == scripts_view(sql_scripts@),
        decreases sql_scripts@.len() - i,
    {
        proof {
            lemma_total_from_bounds(sv, i as int);
        }
        n = n + sql_scripts[i].len();
        i = i + 1;
    }
    let mut cursors: Vec<usize> = Vec::new();
    let mut k: usize = 0;
    while k < sql_scripts.len()
        invariant
            k <= sql_scripts@.len(),
            cursors@.len() == k,
            forall|j: int| 0 <= j < k ==> #[trigger] cursors@[j] == 0,
        decreases sql_scripts@.len() - k,
    {
        cursors.push(0);
        k = k + 1;
    }
    let mut stmts: Vec<SQLStatement> = Vec::new();
    let mut tasks: Vec<Task> = Vec::new();
    proof {
        assert(gen_state(sql_scripts@, cursors@) =~= sv) by {
            assert forall|j: int| 0 <= j < sv.len() implies gen_state(sql_scripts@, cursors@)[j]
                =~= sv[j] by {}
        }
        assert(n == total_len(gen_state(sql_scripts@, cursors@)));
    }
    let ghost tasks0 = tasks@;
    let ghost stmts0 = stmts@;
    permute_all(sql_scripts, &mut cursors, &mut stmts, &mut tasks, n);
    proof {
        assert forall|j: int| 0 <= j < tasks@.len() implies {
            let t = #[trigger] tasks@[j];
            &&& t.elements() == shuffles(sv)[j]
            &&& t.id == j
            &&& t.nb_clients == sql_scripts@.len()
            &&& t.cursor == 0
        } by {
            assert(tasks@[tasks0.len() + j] == tasks@[j]);
            let t = tasks@[tasks0.len() + j];
            assert(t.elements() == script_view(stmts0) + shuffles(gen_state(sql_scripts@, cursors@))[j]);
            assert(script_view(stmts0) + shuffles(sv)[j] =~= shuffles(sv)[j]);
        }
    }
    tasks
}

} // verus!
