use vstd::prelude::*;

use crate::tasks::Task;

verus! {

/// The run-fatal error conditions that the execution core itself can detect.
/// Connection and statement failures come from the database driver and are
/// handled by the surrounding tool through `reserve_clients` / `should_abort`.
#[derive(Debug, PartialEq, Eq, Structural)]
pub enum ExecError {
    /// A task referenced a client id with no pooled connection: a broken
    /// invariant between the generator and the pool, never a routine error.
    InsufficientClients { expected: usize, available: usize },
    /// Neither an explicit option nor the environment supplied a database URL.
    MissingDbUrl,
}

/// How many connections a pool of size `nb` is short of a need.
pub open spec fn spec_missing(nb: int, need: int) -> int {
    if need > nb {
        need - nb
    } else {
        0
    }
}

/// Law: reservation is monotone. A need the pool already covers requires no
/// new connections, and satisfying a need never shrinks the pool; afterwards
/// the pool covers the need.
pub proof fn lemma_reserve_monotone(nb: int, need: int)
    ensures
        spec_missing(nb, need) >= 0,
        need <= nb ==> spec_missing(nb, need) == 0,
        nb + spec_missing(nb, need) >= nb,
        need <= nb + spec_missing(nb, need),
{
}

/// An Executor drives tasks against a growable pool of per-client database
/// connections. The connections themselves live with the database driver;
/// the executor tracks how many are established (`nb_clients`, one per client
/// id, in ascending order) and decides reservation, client lookup and the
/// failure policy.
pub struct Executor {
    pub db_url: String,
    pub nb_clients: usize,
    pub exit_on_fail: bool,
}

impl Executor {
    /// A fresh executor with an empty pool and the fail-fast policy.
    pub fn new(db_url: &str) -> (e: Executor)
        ensures
            e.db_url@ == db_url@,
            e.nb_clients == 0,
            e.exit_on_fail == true,
    {
        Executor { db_url: db_url.to_owned(), nb_clients: 0, exit_on_fail: true }
    }

    pub fn set_exit_on_fail(&mut self, exit_on_fail: bool)
        ensures
            final(self).exit_on_fail == exit_on_fail,
            final(self).db_url@ == old(self).db_url@,
            final(self).nb_clients == old(self).nb_clients,
    {
        self.exit_on_fail = exit_on_fail;
    }

    /// How many new connections a task needing `need` clients requires: the
    /// missing indices are `nb_clients..nb_clients + result`, to be connected
    /// in ascending order. Zero when the pool already suffices.
    pub fn reserve_clients(&self, need: usize) -> (r: usize)
        ensures
            r == spec_missing(self.nb_clients as int, need as int),
            need <= self.nb_clients ==> r == 0,
            self.nb_clients + r >= need,
    {
        if need > self.nb_clients {
            need - self.nb_clients
        } else {
            0
        }
    }

    /// Records that one more connection was established: the pool grew by one
    /// and never shrinks.
    pub fn client_connected(&mut self)
        requires
            old(self).nb_clients < usize::MAX,
        ensures
            final(self).nb_clients == old(self).nb_clients + 1,
            final(self).db_url@ == old(self).db_url@,
            final(self).exit_on_fail == old(self).exit_on_fail,
    {
        self.nb_clients = self.nb_clients + 1;
    }

    /// The defensive bounds check before a statement is routed to its
    /// connection: succeeds exactly when the client id is pooled; otherwise
    /// reports the generator/pool invariant violation.
    pub fn lookup_client(&self, client_id: usize) -> (r: Result<usize, ExecError>)
        ensures
            client_id < self.nb_clients ==> r == Ok::<usize, ExecError>(client_id),
            client_id >= self.nb_clients ==> r == Err::<usize, ExecError>(
                ExecError::InsufficientClients {
                    expected: client_id,
                    available: self.nb_clients,
                },
            ),
    {
        if client_id < self.nb_clients {
            Ok(client_id)
        } else {
            Err(ExecError::InsufficientClients { expected: client_id, available: self.nb_clients })
        }
    }

    /// The failure policy: a failed statement aborts the whole run exactly
    /// when `exit_on_fail` is set; a successful one never does.
    pub fn should_abort(&self, statement_ok: bool) -> (r: bool)
        ensures
            r == (!statement_ok && self.exit_on_fail),
    {
        !statement_ok && self.exit_on_fail
    }
}

/// Law: once the pool is reserved for a well-formed task, every statement of
/// that task names a pooled client, so `lookup_client` always succeeds and the
/// `InsufficientClients` error is logically unreachable: it can only signal a
/// broken generator/pool contract.
pub proof fn lemma_lookup_always_succeeds(e: Executor, t: Task, p: int)
    requires
        t.wf(),
        e.nb_clients >= t.nb_clients,
        0 <= p < t.elements().len(),
    ensures
        0 <= t.elements()[p].client_id < e.nb_clients as int,
{
}

/// Resolves the database endpoint: an explicit option takes precedence, the
/// environment-provided default comes second, and with neither the run fails
/// before anything executes.
pub fn resolve_db_url(connect: Option<String>, env_url: Option<String>) -> (r: Result<
    String,
    ExecError,
>)
    ensures
        connect is Some ==> r == Ok::<String, ExecError>(connect->0),
        connect is None && env_url is Some ==> r == Ok::<String, ExecError>(env_url->0),
        connect is None && env_url is None ==> r == Err::<String, ExecError>(
            ExecError::MissingDbUrl,
        ),
{
    match connect {
        Some(url) => Ok(url),
        None => match env_url {
            Some(url) => Ok(url),
            None => Err(ExecError::MissingDbUrl),
        },
    }
}

} // verus!
