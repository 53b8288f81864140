//! The persistence port: the capability to save and retrieve servers,
//! implementable by any storage technology, plus an in-memory adapter.
//!
//! A repository is abstractly a finite map from identifier to server
//! value in which every record sits under its own identifier; each
//! operation's contract says what it does to that map. The orchestration
//! service depends only on this port, never on a concrete backend.

use vstd::prelude::*;
use crate::domain::Server;
use crate::domain::ServerView;

verus! {

/// The persistence operation during which a failure arose.
#[derive(Debug, Clone, Copy, PartialEq, Eq, Structural)]
pub enum StorageOp {
    Save,
    ListAll,
    FindById,
}

/// Why a storage operation failed.
#[derive(Debug, Clone, Copy, PartialEq, Eq, Structural)]
pub enum StorageFault {
    /// The backing store could not be read or written.
    Io,
    /// A persisted record could not be parsed.
    CorruptRecord,
}

/// A failure to read, write or parse persisted state, carrying the
/// operation and, when known, the identifier it concerned. No failure is
/// silently swallowed: every one reaches the caller as such a value.
#[derive(Debug, Clone, Copy, PartialEq, Eq)]
pub struct StorageError {
    pub op: StorageOp,
    pub fault: StorageFault,
    pub server_id: Option<u128>,
}

/// The persistence port. `save` is an upsert of one complete server
/// snapshot; `list_all` returns every persisted server, in no promised
/// order; `find_by_id` distinguishes "not present" from failure.
pub trait ServerRepository: Sized {
    /// The persisted state: a map from server identifier to server value.
    spec fn model(&self) -> Map<u128, ServerView>;

    /// The adapter's own well-formedness, established by its constructor
    /// and preserved by every operation.
    spec fn inv(&self) -> bool;

    /// Persists the complete state of `server`, replacing any prior state
    /// under the same identifier; on failure the persisted state is
    /// unchanged.
    fn save(&mut self, server: &Server) -> (r: Result<(), StorageError>)
        requires
            old(self).inv(),
        ensures
            final(self).inv(),
            r is Ok ==> final(self).model() == old(self).model().insert(server.id, server@),
            r is Err ==> final(self).model() == old(self).model() && r->Err_0.op
                == StorageOp::Save,
    ;

    /// Returns every persisted server, each exactly once.
    fn list_all(&self) -> (r: Result<Vec<Server>, StorageError>)
        requires
            self.inv(),
        ensures
            r is Ok ==> (r->Ok_0)@.len() == self.model().dom().len(),
            r is Ok ==> forall|i: int|
                0 <= i < (r->Ok_0)@.len() ==> self.model().dom().contains(
                    (#[trigger] (r->Ok_0)@[i])@.id,
                ) && self.model()[(r->Ok_0)@[i]@.id] == (r->Ok_0)@[i]@,
            r is Ok ==> forall|i: int, j: int|
                0 <= i < j < (r->Ok_0)@.len() ==> (#[trigger] (r->Ok_0)@[i])@.id != (#[trigger] (
                r->Ok_0
                )@[j])@.id,
            r is Ok ==> forall|k: u128|
                self.model().dom().contains(k) ==> exists|i: int|
                    0 <= i < (r->Ok_0)@.len() && (#[trigger] (r->Ok_0)@[i])@.id == k,
            r is Err ==> r->Err_0.op == StorageOp::ListAll,
    ;

    /// Returns the persisted server under `id`, or `None` when there is
    /// none; "not present" is a result, not an error.
    fn find_by_id(&self, id: u128) -> (r: Result<Option<Server>, StorageError>)
        requires
            self.inv(),
        ensures
            r is Ok ==> match r->Ok_0 {
                Some(server) => self.model().dom().contains(id) && server@ == self.model()[id]
                    && server@.id == id,
                None => !self.model().dom().contains(id),
            },
            r is Err ==> r->Err_0.op == StorageOp::FindById,
    ;
}

/// The map a vector of servers stands for: each one under its identifier,
/// later entries shadowing earlier ones.
pub open spec fn seq_model(s: Seq<Server>) -> Map<u128, ServerView>
    decreases s.len(),
{
    if s.len() == 0 {
        Map::empty()
    } else {
        seq_model(s.drop_last()).insert(s.last().id, s.last()@)
    }
}

/// No two servers in the vector share an identifier.
pub open spec fn distinct_ids(s: Seq<Server>) -> bool {
    forall|i: int, j: int| 0 <= i < j < s.len() ==> (#[trigger] s[i]).id != (#[trigger] s[j]).id
}

pub proof fn lemma_seq_model_dom(s: Seq<Server>)
    ensures
        seq_model(s).dom().finite(),
        forall|k: u128|
            seq_model(s).dom().contains(k) <==> exists|i: int|
                0 <= i < s.len() && (#[trigger] s[i]).id == k,
    decreases s.len(),
{
    if s.len() == 0 {
    } else {
        lemma_seq_model_dom(s.drop_last());
        assert forall|k: u128| seq_model(s).dom().contains(k) implies exists|i: int|
            0 <= i < s.len() && (#[trigger] s[i]).id == k by {
            if k == s.last().id {
                assert(s[s.len() - 1].id == k);
            } else {
                let i = choose|i: int| 0 <= i < s.drop_last().len() && (#[trigger] s.drop_last()[i]).id == k;
                assert(s[i].id == k);
            }
        }
        assert forall|k: u128|
            (exists|i: int| 0 <= i < s.len() && (#[trigger] s[i]).id == k) implies seq_model(
            s,
        ).dom().contains(k) by {
            let i = choose|i: int| 0 <= i < s.len() && (#[trigger] s[i]).id == k;
            if i == s.len() - 1 {
            } else {
                assert(s.drop_last()[i].id == k);
            }
        }
    }
}

pub proof fn lemma_seq_model_at(s: Seq<Server>, i: int)
    requires
        distinct_ids(s),
        0 <= i < s.len(),
    ensures
        seq_model(s).dom().contains(s[i].id),
        seq_model(s)[s[i].id] == s[i]@,
    decreases s.len(),
{
    if i == s.len() - 1 {
        assert(s.last() == s[i]);
    } else {
        assert(distinct_ids(s.drop_last())) by {
            assert(forall|a: int, b: int|
                0 <= a < b < s.drop_last().len() ==> (#[trigger] s.drop_last()[a]).id
                    != (#[trigger] s.drop_last()[b]).id) by {
                assert(forall|a: int|
                    0 <= a < s.drop_last().len() ==> #[trigger] s.drop_last()[a] == s[a]);
            }
        }
        lemma_seq_model_at(s.drop_last(), i);
        assert(s.drop_last()[i] == s[i]);
        assert(s[i].id != s.last().id);
    }
}

pub proof fn lemma_seq_model_len(s: Seq<Server>)
    requires
        distinct_ids(s),
    ensures
        seq_model(s).dom().len() == s.len(),
    decreases s.len(),
{
    lemma_seq_model_dom(s);
    if s.len() == 0 {
        assert(seq_model(s).dom() =~= Set::<u128>::empty());
    } else {
        let sp = s.drop_last();
        assert(distinct_ids(sp)) by {
            assert(forall|a: int| 0 <= a < sp.len() ==> #[trigger] sp[a] == s[a]);
        }
        lemma_seq_model_len(sp);
        lemma_seq_model_dom(sp);
        assert(!seq_model(sp).dom().contains(s.last().id)) by {
            if seq_model(sp).dom().contains(s.last().id) {
                let i = choose|i: int|
                    0 <= i < sp.len() && (#[trigger] sp[i]).id == s.last().id;
                assert(s[i].id == s[s.len() - 1].id);
                assert(false);
            }
        }
        assert(seq_model(s).dom() =~= seq_model(sp).dom().insert(s.last().id));
        vstd::set::axiom_set_insert_len(seq_model(sp).dom(), s.last().id);
    }
}

pub proof fn lemma_seq_model_update(s: Seq<Server>, i: int, x: Server)
    requires
        distinct_ids(s),
        0 <= i < s.len(),
        x.id == s[i].id,
    ensures
        seq_model(s.update(i, x)) == seq_model(s).insert(x.id, x@),
    decreases s.len(),
{
    let u = s.update(i, x);
    if i == s.len() - 1 {
        assert(u.drop_last() =~= s.drop_last());
        assert(u.last() == x);
    } else {
        assert(distinct_ids(s.drop_last())) by {
            assert(forall|a: int|
                0 <= a < s.drop_last().len() ==> #[trigger] s.drop_last()[a] == s[a]);
        }
        lemma_seq_model_update(s.drop_last(), i, x);
        assert(u.drop_last() =~= s.drop_last().update(i, x));
        assert(u.last() == s.last());
        assert(s[i].id != s.last().id);
        assert(seq_model(u) == seq_model(s.drop_last()).insert(x.id, x@).insert(
            s.last().id,
            s.last()@,
        ));
        assert(seq_model(s.drop_last()).insert(x.id, x@).insert(s.last().id, s.last()@)
            =~= seq_model(s.drop_last()).insert(s.last().id, s.last()@).insert(x.id, x@));
    }
}

/// An in-memory adapter for the port: every server in a vector, one entry
/// per identifier. It shows the port is implementable without any backing
/// technology and serves as the reference backend in tests.
pub struct InMemoryServerRepository {
    servers: Vec<Server>,
}

impl InMemoryServerRepository {
    /// An empty store.
    pub fn new() -> (r: InMemoryServerRepository)
        ensures
            r.inv(),
            r.model() == Map::<u128, ServerView>::empty(),
    {
        let r = InMemoryServerRepository { servers: Vec::new() };
        proof {
            assert(r.servers@.len() == 0);
        }
        r
    }

}

impl ServerRepository for InMemoryServerRepository {
    closed spec fn model(&self) -> Map<u128, ServerView> {
        seq_model(self.servers@)
    }

    /// The vector holds pairwise distinct identifiers.
    closed spec fn inv(&self) -> bool {
        distinct_ids(self.servers@)
    }

    fn save(&mut self, server: &Server) -> (r: Result<(), StorageError>)
        ensures
            r is Ok,
    {
        let n = self.servers.len();
        let mut i: usize = 0;
        while i < n
            invariant
                old(self).inv(),
                n == self.servers@.len(),
                i <= n,
                forall|j: int| 0 <= j < i ==> (#[trigger] self.servers@[j]).id != server.id,
                *self == *old(self),
            decreases n - i,
        {
            if self.servers[i].id == server.id {
                let copy = server.duplicate();
                proof {
                    lemma_seq_model_update(self.servers@, i as int, copy);
                }
                self.servers.set(i, copy);
                proof {
                    let s = old(self).servers@;
                    let u = self.servers@;
                    assert(u =~= s.update(i as int, copy));
                    assert(distinct_ids(u)) by {
                        assert(forall|a: int, b: int|
                            0 <= a < b < u.len() ==> (#[trigger] u[a]).id != (#[trigger] u[b]).id)
                            by {
                            assert(forall|a: int|
                                0 <= a < u.len() && a != i ==> #[trigger] u[a] == s[a]);
                            assert(u[i as int].id == s[i as int].id);
                        }
                    }
                    lemma_seq_model_dom(u);
                    assert forall|k: u128| seq_model(u).dom().contains(k) implies (
                    #[trigger] seq_model(u)[k]).id == k by {
                        let idx = choose|a: int| 0 <= a < u.len() && (#[trigger] u[a]).id == k;
                        lemma_seq_model_at(u, idx);
                    }
                }
                return Ok(());
            }
            i = i + 1;
        }
        let copy = server.duplicate();
        proof {
            let s = self.servers@;
            assert(forall|j: int| 0 <= j < s.len() ==> (#[trigger] s[j]).id != copy.id);
        }
        self.servers.push(copy);
        proof {
            let s = old(self).servers@;
            let u = self.servers@;
            assert(u.drop_last() =~= s);
            assert(u.last() == copy);
            assert(seq_model(u) == seq_model(s).insert(server.id, server@));
            assert(distinct_ids(u)) by {
                assert(forall|a: int| 0 <= a < s.len() ==> #[trigger] u[a] == s[a]);
                assert(u[u.len() - 1].id == server.id);
            }
            lemma_seq_model_dom(u);
            assert forall|k: u128| seq_model(u).dom().contains(k) implies (#[trigger] seq_model(
                u,
            )[k]).id == k by {
                let idx = choose|a: int| 0 <= a < u.len() && (#[trigger] u[a]).id == k;
                lemma_seq_model_at(u, idx);
            }
        }
        Ok(())
    }

    fn list_all(&self) -> (r: Result<Vec<Server>, StorageError>)
        ensures
            r is Ok,
    {
        let n = self.servers.len();
        let mut out: Vec<Server> = Vec::new();
        let mut i: usize = 0;
        while i < n
            invariant
                self.inv(),
                n == self.servers@.len(),
                i <= n,
                out@.len() == i,
                forall|j: int| 0 <= j < i ==> (#[trigger] out@[j])@ == self.servers@[j]@,
            decreases n - i,
        {
            out.push(self.servers[i].duplicate());
            i = i + 1;
        }
        proof {
            lemma_seq_model_len(self.servers@);
            assert forall|j: int| 0 <= j < out@.len() implies self.model().dom().contains(
                (#[trigger] out@[j])@.id,
            ) && self.model()[out@[j]@.id] == out@[j]@ by {
                lemma_seq_model_at(self.servers@, j);
            }
            assert forall|k: u128| self.model().dom().contains(k) implies exists|j: int|
                0 <= j < out@.len() && (#[trigger] out@[j])@.id == k by {
                lemma_seq_model_dom(self.servers@);
                let idx = choose|a: int|
                    0 <= a < self.servers@.len() && (#[trigger] self.servers@[a]).id == k;
                assert(out@[idx]@.id == k);
            }
        }
        Ok(out)
    }

    fn find_by_id(&self, id: u128) -> (r: Result<Option<Server>, StorageError>)
        ensures
            r is Ok,
    {
        let n = self.servers.len();
        let mut i: usize = 0;
        while i < n
            invariant
                self.inv(),
                n == self.servers@.len(),
                i <= n,
                forall|j: int| 0 <= j < i ==> (#[trigger] self.servers@[j]).id != id,
            decreases n - i,
        {
            if self.servers[i].id == id {
                proof {
                    lemma_seq_model_at(self.servers@, i as int);
                }
                return Ok(Some(self.servers[i].duplicate()));
            }
            i = i + 1;
        }
        proof {
            lemma_seq_model_dom(self.servers@);
            if self.model().dom().contains(id) {
                let idx = choose|a: int|
                    0 <= a < self.servers@.len() && (#[trigger] self.servers@[a]).id == id;
                assert(false);
            }
        }
        Ok(None)
    }
}

} // verus!
