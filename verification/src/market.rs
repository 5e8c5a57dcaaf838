//! The task marketplace: tasks keyed by id, authenticated on completion.
//!
//! A task's metadata is signed over `"{id}:{description}"`. Completion
//! verifies that signature against the stored public key and marks the task
//! complete only when verification succeeds; a failed attempt changes
//! nothing.

use vstd::prelude::*;

use crate::sphincs::{sig_verifies, Sphincs};
use crate::LedgerError;
use vstd::slice::slice_to_vec;
use vstd::string::StringExecFns;

verus! {

/// A unit of useful work. `data` is an opaque payload — in the issuance
/// protocol, a key-encapsulation ciphertext; `signature` is a detached
/// signature over `"{id}:{description}"` under `sphincs_public_key`.
#[derive(Debug)]
pub struct Task {
    pub id: String,
    pub description: String,
    pub data: Vec<u8>,
    pub reward: u64,
    pub is_complete: bool,
    pub sphincs_public_key: Vec<u8>,
    pub signature: Vec<u8>,
}

/// Mathematical image of a [`Task`].
#[verifier::ext_equal]
pub struct TaskV {
    pub id: Seq<char>,
    pub description: Seq<char>,
    pub data: Seq<u8>,
    pub reward: u64,
    pub is_complete: bool,
    pub sphincs_public_key: Seq<u8>,
    pub signature: Seq<u8>,
}

impl View for Task {
    type V = TaskV;

    open spec fn view(&self) -> TaskV {
        TaskV {
            id: self.id@,
            description: self.description@,
            data: self.data@,
            reward: self.reward,
            is_complete: self.is_complete,
            sphincs_public_key: self.sphincs_public_key@,
            signature: self.signature@,
        }
    }
}

impl DeepView for Task {
    type V = TaskV;

    open spec fn deep_view(&self) -> TaskV {
        self.view()
    }
}

impl Clone for Task {
    fn clone(&self) -> (r: Self)
        ensures
            r@ == self@,
    {
        let r = Task {
            id: self.id.clone(),
            description: self.description.clone(),
            data: slice_to_vec(self.data.as_slice()),
            reward: self.reward,
            is_complete: self.is_complete,
            sphincs_public_key: slice_to_vec(self.sphincs_public_key.as_slice()),
            signature: slice_to_vec(self.signature.as_slice()),
        };
        assert(r@ =~= self@);
        r
    }
}

/// The message a task's signature is checked against: the UTF-8 bytes of
/// `"{id}:{description}"`.
pub open spec fn auth_message(id: Seq<char>, description: Seq<char>) -> Seq<u8> {
    vstd::utf8::encode_utf8(id + seq![':'] + description)
}

/// Whether the stored signature authenticates the task's own id and
/// description under the stored public key.
pub open spec fn task_authentic(t: TaskV) -> bool {
    sig_verifies(auth_message(t.id, t.description), t.signature, t.sphincs_public_key)
}

/// Whether the table holds a task with this id.
pub open spec fn has_task(s: Seq<TaskV>, id: Seq<char>) -> bool
    decreases s.len(),
{
    if s.len() == 0 {
        false
    } else if s.last().id == id {
        true
    } else {
        has_task(s.drop_last(), id)
    }
}

/// The task recorded under `id`; meaningful only when `has_task` holds.
pub open spec fn task_of(s: Seq<TaskV>, id: Seq<char>) -> TaskV
    recommends
        has_task(s, id),
    decreases s.len(),
{
    if s.len() == 0 {
        arbitrary()
    } else if s.last().id == id {
        s.last()
    } else {
        task_of(s.drop_last(), id)
    }
}

/// No task id appears twice.
pub open spec fn unique_task_ids(s: Seq<TaskV>) -> bool {
    forall|i: int, j: int| 0 <= i < j < s.len() ==> s[i].id != s[j].id
}

proof fn lemma_has_task_index(s: Seq<TaskV>, id: Seq<char>)
    ensures
        has_task(s, id) <==> exists|k: int| 0 <= k < s.len() && s[k].id == id,
    decreases s.len(),
{
    if s.len() > 0 {
        lemma_has_task_index(s.drop_last(), id);
        if s.last().id == id {
            assert(s[s.len() - 1].id == id);
        } else if exists|k: int| 0 <= k < s.len() && s[k].id == id {
            let k = choose|k: int| 0 <= k < s.len() && s[k].id == id;
            assert(s.drop_last()[k].id == id);
        }
    }
}

proof fn lemma_task_at_index(s: Seq<TaskV>, i: int)
    requires
        unique_task_ids(s),
        0 <= i < s.len(),
    ensures
        has_task(s, s[i].id),
        task_of(s, s[i].id) == s[i],
    decreases s.len(),
{
    if i == s.len() - 1 {
    } else {
        assert(s.drop_last()[i] == s[i]);
        assert forall|k: int, j: int|
            0 <= k < j < s.drop_last().len() implies s.drop_last()[k].id != s.drop_last()[j].id by {
            assert(s.drop_last()[k] == s[k]);
            assert(s.drop_last()[j] == s[j]);
        }
        lemma_task_at_index(s.drop_last(), i);
    }
}

proof fn lemma_task_update(s: Seq<TaskV>, i: int, v: TaskV)
    requires
        unique_task_ids(s),
        0 <= i < s.len(),
        v.id == s[i].id,
    ensures
        unique_task_ids(s.update(i, v)),
        forall|id: Seq<char>|
            id != s[i].id ==> (has_task(s.update(i, v), id) <==> has_task(s, id)) && (has_task(
                s,
                id,
            ) ==> task_of(s.update(i, v), id) == task_of(s, id)),
    decreases s.len(),
{
    let t = s.update(i, v);
    assert(forall|k: int| 0 <= k < s.len() && k != i ==> t[k] == s[k]);
    assert(t[i] == v);
    assert forall|k: int, j: int| 0 <= k < j < t.len() implies t[k].id != t[j].id by {
        assert(t[k].id == s[k].id);
        assert(t[j].id == s[j].id);
    }
    if i == s.len() - 1 {
        assert(t.drop_last() =~= s.drop_last());
        assert(t.last() == v);
        assert forall|id: Seq<char>|
            id != s[i].id implies (has_task(t, id) <==> has_task(s, id)) && (has_task(s, id)
                ==> task_of(t, id) == task_of(s, id)) by {
            assert(has_task(t, id) == has_task(t.drop_last(), id));
            assert(has_task(s, id) == has_task(s.drop_last(), id));
            if has_task(s, id) {
                assert(task_of(t, id) == task_of(t.drop_last(), id));
                assert(task_of(s, id) == task_of(s.drop_last(), id));
            }
        }
    } else {
        let sd = s.drop_last();
        assert(sd[i] == s[i]);
        assert forall|k: int, j: int| 0 <= k < j < sd.len() implies sd[k].id != sd[j].id by {
            assert(sd[k] == s[k]);
            assert(sd[j] == s[j]);
        }
        lemma_task_update(sd, i, v);
        assert(t.drop_last() =~= sd.update(i, v));
        assert(t.last() == s.last());
        assert forall|id: Seq<char>|
            id != s[i].id implies (has_task(t, id) <==> has_task(s, id)) && (has_task(s, id)
                ==> task_of(t, id) == task_of(s, id)) by {
            if s.last().id != id {
                assert(has_task(t, id) == has_task(t.drop_last(), id));
                assert(has_task(s, id) == has_task(sd, id));
                if has_task(s, id) {
                    assert(task_of(t, id) == task_of(t.drop_last(), id));
                    assert(task_of(s, id) == task_of(sd, id));
                }
            }
        }
    }
}

proof fn lemma_task_push(s: Seq<TaskV>, v: TaskV)
    requires
        unique_task_ids(s),
        !has_task(s, v.id),
    ensures
        unique_task_ids(s.push(v)),
        has_task(s.push(v), v.id),
        task_of(s.push(v), v.id) == v,
        forall|id2: Seq<char>|
            id2 != v.id ==> (has_task(s.push(v), id2) <==> has_task(s, id2)) && (has_task(s, id2)
                ==> task_of(s.push(v), id2) == task_of(s, id2)),
{
    let t = s.push(v);
    assert(t.drop_last() =~= s);
    assert(t.last() == v);
    lemma_has_task_index(s, v.id);
}

/// The pending tasks of the table, in table order: those not yet complete.
pub open spec fn pending_of(s: Seq<TaskV>) -> Seq<TaskV>
    decreases s.len(),
{
    if s.len() == 0 {
        Seq::empty()
    } else if s.last().is_complete {
        pending_of(s.drop_last())
    } else {
        pending_of(s.drop_last()).push(s.last())
    }
}

/// The registry of tasks, keyed by task id; one task per id.
#[derive(Debug)]
pub struct TaskQueue {
    pub tasks: Vec<Task>,
}

impl TaskQueue {
    /// The table as a mathematical sequence of task images.
    pub open spec fn entries(&self) -> Seq<TaskV> {
        self.tasks.deep_view()
    }

    /// Whether the table holds a task with this id.
    pub open spec fn has(&self, id: Seq<char>) -> bool {
        has_task(self.entries(), id)
    }

    /// The task recorded under `id`.
    pub open spec fn task(&self, id: Seq<char>) -> TaskV {
        task_of(self.entries(), id)
    }

    /// Well-formed: one task per id.
    pub open spec fn wf(&self) -> bool {
        unique_task_ids(self.entries())
    }

    /// An empty registry.
    pub fn new() -> (r: Self)
        ensures
            r.wf(),
            r.entries() == Seq::<TaskV>::empty(),
    {
        let r = TaskQueue { tasks: Vec::new() };
        assert(r.entries() =~= Seq::<TaskV>::empty());
        r
    }

    /// Inserts a pending task under `id`, replacing any task already stored
    /// under the same id.
    #[verifier::loop_isolation(false)]
    pub fn add_task(
        &mut self,
        id: String,
        description: String,
        data: Vec<u8>,
        reward: u64,
        sphincs_public_key: Vec<u8>,
        signature: Vec<u8>,
    )
        requires
            old(self).wf(),
        ensures
            final(self).wf(),
            final(self).has(id@),
            final(self).task(id@) == (TaskV {
                id: id@,
                description: description@,
                data: data@,
                reward,
                is_complete: false,
                sphincs_public_key: sphincs_public_key@,
                signature: signature@,
            }),
            forall|id2: Seq<char>|
                id2 != id@ ==> (final(self).has(id2) <==> old(self).has(id2)) && (old(self).has(id2)
                    ==> final(self).task(id2) == old(self).task(id2)),
    {
        let ghost s = self.entries();
        let task = Task {
            id,
            description,
            data,
            reward,
            is_complete: false,
            sphincs_public_key,
            signature,
        };
        let n = self.tasks.len();
        let mut i: usize = 0;
        while i < n
            invariant
                n == self.tasks.len(),
                i <= n,
                forall|k: int| 0 <= k < i ==> self.entries()[k].id != task.id@,
                *self == *old(self),
            decreases n - i,
        {
            if self.tasks[i].id == task.id {
                proof {
                    lemma_task_at_index(s, i as int);
                    lemma_task_update(s, i as int, task@);
                }
                let ghost tv = task@;
                self.tasks.set(i, task);
                proof {
                    assert(self.entries() =~= s.update(i as int, tv));
                    lemma_task_at_index(self.entries(), i as int);
                }
                return ;
            }
            i = i + 1;
        }
        proof {
            lemma_has_task_index(s, task.id@);
            lemma_task_push(s, task@);
        }
        let ghost tv = task@;
        self.tasks.push(task);
        proof {
            assert(self.entries() =~= s.push(tv));
        }
    }

    /// Completes the task stored under `id`: recomputes the authenticated
    /// message `"{id}:{description}"`, verifies the stored signature under
    /// the stored public key, and only on success marks the task complete,
    /// returning the updated snapshot. An unknown id or a failed
    /// verification changes nothing.
    #[verifier::loop_isolation(false)]
    pub fn complete_task(&mut self, id: &str) -> (r: Result<Task, LedgerError>)
        requires
            old(self).wf(),
        ensures
            final(self).wf(),
            r is Ok <==> old(self).has(id@) && task_authentic(old(self).task(id@)),
            r is Ok ==> r->Ok_0@ == (TaskV { is_complete: true, ..old(self).task(id@) }),
            r is Ok ==> final(self).has(id@) && final(self).task(id@) == r->Ok_0@,
            r is Ok ==> forall|id2: Seq<char>|
                id2 != id@ ==> (final(self).has(id2) <==> old(self).has(id2)) && (old(self).has(id2)
                    ==> final(self).task(id2) == old(self).task(id2)),
            r is Err ==> *final(self) == *old(self),
            r is Err ==> (r->Err_0 == LedgerError::TaskNotFound <==> !old(self).has(id@)),
            r is Err ==> (r->Err_0 == LedgerError::SignatureInvalid <==> old(self).has(id@)
                && !task_authentic(old(self).task(id@))),
    {
        let ghost s = self.entries();
        let id_owned = id.to_owned();
        let n = self.tasks.len();
        let mut i: usize = 0;
        while i < n
            invariant
                n == self.tasks.len(),
                i <= n,
                forall|k: int| 0 <= k < i ==> self.entries()[k].id != id@,
                *self == *old(self),
            decreases n - i,
        {
            if self.tasks[i].id == id_owned {
                proof {
                    lemma_task_at_index(s, i as int);
                }
                let mut m = id.to_owned();
                m.append(":");
                m.append(self.tasks[i].description.as_str());
                proof {
                    reveal_strlit(":");
                    assert(":"@ =~= seq![':']);
                    assert(m@ =~= id@ + seq![':'] + self.tasks@[i as int].description@);
                }
                let ok = Sphincs::verify(
                    m.as_str().as_bytes(),
                    self.tasks[i].signature.as_slice(),
                    self.tasks[i].sphincs_public_key.as_slice(),
                );
                if !ok {
                    return Err(LedgerError::SignatureInvalid);
                }
                let mut u = self.tasks[i].clone();
                u.is_complete = true;
                let snapshot = u.clone();
                proof {
                    lemma_task_update(s, i as int, u@);
                }
                let ghost uv = u@;
                self.tasks.set(i, u);
                proof {
                    assert(self.entries() =~= s.update(i as int, uv));
                    lemma_task_at_index(self.entries(), i as int);
                    assert(snapshot@ =~= (TaskV { is_complete: true, ..task_of(s, id@) }));
                }
                return Ok(snapshot);
            }
            i = i + 1;
        }
        proof {
            lemma_has_task_index(s, id@);
        }
        Err(LedgerError::TaskNotFound)
    }

    /// Copies of all tasks not yet complete, in table order. Completed tasks
    /// are never exposed here.
    #[verifier::loop_isolation(false)]
    pub fn get_pending_tasks(&self) -> (r: Vec<Task>)
        ensures
            r.deep_view() == pending_of(self.entries()),
    {
        let ghost s = self.entries();
        let mut r: Vec<Task> = Vec::new();
        let n = self.tasks.len();
        let mut i: usize = 0;
        assert(r.deep_view() =~= pending_of(s.take(0)));
        while i < n
            invariant
                n == self.tasks.len(),
                i <= n,
                r.deep_view() == pending_of(s.take(i as int)),
            decreases n - i,
        {
            let ghost r0 = r.deep_view();
            if !self.tasks[i].is_complete {
                r.push(self.tasks[i].clone());
                proof {
                    assert(r.deep_view() =~= r0.push(s[i as int]));
                }
            }
            proof {
                assert(s.take(i + 1).drop_last() =~= s.take(i as int));
                assert(s.take(i + 1).last() == s[i as int]);
            }
            i = i + 1;
        }
        proof {
            assert(s.take(n as int) =~= s);
        }
        r
    }

    /// A copy of the task stored under `id`, when there is one.
    #[verifier::loop_isolation(false)]
    pub fn get_task(&self, id: &str) -> (r: Option<Task>)
        requires
            self.wf(),
        ensures
            r is Some <==> self.has(id@),
            r is Some ==> r->0@ == self.task(id@),
    {
        let ghost s = self.entries();
        let id_owned = id.to_owned();
        let n = self.tasks.len();
        let mut i: usize = 0;
        while i < n
            invariant
                n == self.tasks.len(),
                i <= n,
                forall|k: int| 0 <= k < i ==> self.entries()[k].id != id@,
            decreases n - i,
        {
            if self.tasks[i].id == id_owned {
                proof {
                    lemma_task_at_index(s, i as int);
                }
                return Some(self.tasks[i].clone());
            }
            i = i + 1;
        }
        proof {
            lemma_has_task_index(s, id@);
        }
        None
    }
}

/// Everything a task issuer produces before publishing a task: a KEM
/// keypair, the shared secret and ciphertext encapsulated against it, a
/// signing keypair and the detached signature over `"{id}:{description}"`.
pub struct TaskArtifacts {
    pub kem_public_key: Vec<u8>,
    pub kem_secret_key: Vec<u8>,
    pub shared_secret: Vec<u8>,
    pub kem_ciphertext: Vec<u8>,
    pub sphincs_public_key: Vec<u8>,
    pub signature: Vec<u8>,
}

/// Issues the cryptographic artifacts for a new task: generates a KEM
/// keypair and encapsulates against it, generates a signing keypair and
/// signs `"{id}:{description}"`. The returned signature verifies for that
/// exact id and description, and decapsulating the returned ciphertext with
/// the returned KEM secret key recovers the returned shared secret.
pub fn create_task_artifacts(id: &str, description: &str) -> (r: TaskArtifacts)
    ensures
        sig_verifies(auth_message(id@, description@), r.signature@, r.sphincs_public_key@),
        crate::kyber::decap_of(r.kem_ciphertext@, r.kem_secret_key@) == r.shared_secret@,
        crate::kyber::kem_paired(r.kem_public_key@, r.kem_secret_key@),
        r.kem_public_key@.len() == crate::kyber::KYBER_PUBLIC_KEY_BYTES,
        r.kem_secret_key@.len() == crate::kyber::KYBER_SECRET_KEY_BYTES,
        r.kem_ciphertext@.len() == crate::kyber::KYBER_CIPHERTEXT_BYTES,
        r.shared_secret@.len() == crate::kyber::KYBER_SHARED_SECRET_BYTES,
        r.sphincs_public_key@.len() == crate::sphincs::SPHINCS_PUBLIC_KEY_BYTES,
        r.signature@.len() == crate::sphincs::SPHINCS_SIGNATURE_BYTES,
{
    let (kem_public_key, kem_secret_key) = crate::kyber::KyberEncryption::generate_keypair();
    let (shared_secret, kem_ciphertext) = match crate::kyber::KyberEncryption::encrypt(
        kem_public_key.as_slice(),
    ) {
        Ok(x) => x,
        Err(_) => unreached(),
    };
    let (sphincs_public_key, sphincs_secret_key) = match Sphincs::generate_keypair() {
        Ok(x) => x,
        Err(_) => unreached(),
    };
    let mut m = id.to_owned();
    m.append(":");
    m.append(description);
    proof {
        reveal_strlit(":");
        assert(":"@ =~= seq![':']);
        assert(m@ =~= id@ + seq![':'] + description@);
    }
    let signature = match Sphincs::sign(m.as_str().as_bytes(), sphincs_secret_key.as_slice()) {
        Ok(x) => x,
        Err(_) => unreached(),
    };
    TaskArtifacts {
        kem_public_key,
        kem_secret_key,
        shared_secret,
        kem_ciphertext,
        sphincs_public_key,
        signature,
    }
}

} // verus!
