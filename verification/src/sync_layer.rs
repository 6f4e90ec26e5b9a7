//! The sync layer's bookkeeping: the request map that reunites committed
//! entries with waiting clients, the submit and apply steps around the
//! consensus channels, and the ordering and no-leak laws.

use vstd::prelude::*;
use crate::cmd::{
    apply_result, dec_cmd, enc_cmd, handle_post, inner_id, inner_view, is_write, InnerCmd,
    InnerView,
};
use crate::storage::{store_view, StorageError};

verus! {

// ---------------------------------------------------------------------------
// The request map: request id to waiting reply channel.
// ---------------------------------------------------------------------------

/// The map an association list denotes: later entries override earlier
/// ones (entries are kept unique, so none does).
pub open spec fn as_map_rec<T>(s: Seq<(u128, T)>) -> Map<u128, T>
    decreases s.len(),
{
    if s.len() == 0 {
        Map::empty()
    } else {
        as_map_rec(s.drop_last()).insert(s.last().0, s.last().1)
    }
}

pub open spec fn keys_unique<T>(s: Seq<(u128, T)>) -> bool {
    forall|i: int, j: int| 0 <= i < j < s.len() ==> (#[trigger] s[i]).0 != (#[trigger] s[j]).0
}

proof fn lemma_as_map_contains<T>(s: Seq<(u128, T)>, k: u128)
    ensures
        as_map_rec(s).contains_key(k) <==> (exists|i: int|
            0 <= i < s.len() && (#[trigger] s[i]).0 == k),
    decreases s.len(),
{
    if s.len() > 0 {
        lemma_as_map_contains(s.drop_last(), k);
        if as_map_rec(s).contains_key(k) {
            if k == s.last().0 {
                assert(s[s.len() - 1].0 == k);
            } else {
                let i0 = choose|i: int| 0 <= i < s.len() - 1 && (#[trigger] s.drop_last()[i]).0
                    == k;
                assert(s[i0].0 == k);
            }
        }
        if exists|i: int| 0 <= i < s.len() && (#[trigger] s[i]).0 == k {
            let i0 = choose|i: int| 0 <= i < s.len() && (#[trigger] s[i]).0 == k;
            if i0 < s.len() - 1 {
                assert(s.drop_last()[i0].0 == k);
            }
        }
    }
}

proof fn lemma_keys_unique_drop_last<T>(s: Seq<(u128, T)>)
    requires
        keys_unique(s),
        s.len() > 0,
    ensures
        keys_unique(s.drop_last()),
{
    assert(forall|a: int| 0 <= a < s.len() - 1 ==> #[trigger] s.drop_last()[a] == s[a]);
}

proof fn lemma_as_map_value<T>(s: Seq<(u128, T)>, i: int)
    requires
        keys_unique(s),
        0 <= i < s.len(),
    ensures
        as_map_rec(s).contains_key(s[i].0),
        as_map_rec(s)[s[i].0] == s[i].1,
    decreases s.len(),
{
    assert(s.last() == s[s.len() - 1]);
    if i == s.len() - 1 {
    } else {
        lemma_keys_unique_drop_last(s);
        assert(s.drop_last()[i] == s[i]);
        lemma_as_map_value(s.drop_last(), i);
        assert(s[i].0 != s[s.len() - 1].0);
    }
}

proof fn lemma_as_map_len<T>(s: Seq<(u128, T)>)
    requires
        keys_unique(s),
    ensures
        as_map_rec(s).dom().finite(),
        as_map_rec(s).dom().len() == s.len(),
    decreases s.len(),
{
    if s.len() > 0 {
        lemma_keys_unique_drop_last(s);
        lemma_as_map_len(s.drop_last());
        lemma_as_map_contains(s.drop_last(), s.last().0);
        assert(!as_map_rec(s.drop_last()).contains_key(s.last().0)) by {
            if exists|i: int| 0 <= i < s.len() - 1 && (#[trigger] s.drop_last()[i]).0 == s.last().0 {
                let i0 = choose|i: int|
                    0 <= i < s.len() - 1 && (#[trigger] s.drop_last()[i]).0 == s.last().0;
                assert(s[i0].0 == s[s.len() - 1].0);
            }
        }
        assert(as_map_rec(s).dom() =~= as_map_rec(s.drop_last()).dom().insert(s.last().0));
    } else {
        assert(as_map_rec(s).dom() =~= Set::<u128>::empty());
    }
}

proof fn lemma_as_map_remove<T>(s: Seq<(u128, T)>, i: int)
    requires
        keys_unique(s),
        0 <= i < s.len(),
    ensures
        keys_unique(s.remove(i)),
        as_map_rec(s.remove(i)) == as_map_rec(s).remove(s[i].0),
    decreases s.len(),
{
    let s2 = s.remove(i);
    assert(forall|a: int|
        0 <= a < s.len() - 1 ==> #[trigger] s2[a] == (if a < i {
            s[a]
        } else {
            s[a + 1]
        }));
    assert(keys_unique(s2));
    lemma_keys_unique_drop_last(s);
    if i == s.len() - 1 {
        assert(s2 =~= s.drop_last());
        lemma_as_map_contains(s.drop_last(), s[i].0);
        assert(!as_map_rec(s.drop_last()).contains_key(s[i].0)) by {
            if exists|a: int| 0 <= a < s.len() - 1 && (#[trigger] s.drop_last()[a]).0 == s[i].0 {
                let a0 = choose|a: int|
                    0 <= a < s.len() - 1 && (#[trigger] s.drop_last()[a]).0 == s[i].0;
                assert(s[a0].0 == s[i].0);
            }
        }
        assert(as_map_rec(s.drop_last()) =~= as_map_rec(s).remove(s[i].0));
    } else {
        assert(s2.drop_last() =~= s.drop_last().remove(i));
        assert(s2.last() == s.last());
        assert(s.drop_last()[i] == s[i]);
        lemma_as_map_remove(s.drop_last(), i);
        assert(s[i].0 != s.last().0);
        assert(as_map_rec(s2) == as_map_rec(s.drop_last().remove(i)).insert(
            s.last().0,
            s.last().1,
        ));
        assert(as_map_rec(s.drop_last()).remove(s[i].0).insert(s.last().0, s.last().1)
            =~= as_map_rec(s.drop_last()).insert(s.last().0, s.last().1).remove(s[i].0));
    }
}

/// Request id to waiting reply channel. Populated when a write is
/// submitted, drained when the committed entry is applied on this node.
pub struct RequestMap<T> {
    entries: Vec<(u128, T)>,
}

impl<T> View for RequestMap<T> {
    type V = Map<u128, T>;

    closed spec fn view(&self) -> Map<u128, T> {
        as_map_rec(self.entries@)
    }
}

impl<T> RequestMap<T> {
    /// Entries carry pairwise distinct request ids.
    pub closed spec fn wf(&self) -> bool {
        keys_unique(self.entries@)
    }

    pub fn new() -> (r: RequestMap<T>)
        ensures
            r.wf(),
            r@ == Map::<u128, T>::empty(),
    {
        RequestMap { entries: Vec::new() }
    }

    /// Remove and return the channel waiting under `id`, if any.
    #[verifier::loop_isolation(false)]
    pub fn remove(&mut self, id: u128) -> (r: Option<T>)
        requires
            old(self).wf(),
        ensures
            final(self).wf(),
            final(self)@ == old(self)@.remove(id),
            r is Some <==> old(self)@.contains_key(id),
            r matches Option::Some(v) ==> old(self)@.contains_key(id) && v == old(self)@[id],
    {
        let n = self.entries.len();
        let mut i: usize = 0;
        while i < n
            invariant
                i <= n,
                self.entries@ == old(self).entries@,
                n == self.entries@.len(),
                forall|j: int| 0 <= j < i ==> (#[trigger] self.entries@[j]).0 != id,
            decreases n - i,
        {
            if self.entries[i].0 == id {
                proof {
                    lemma_as_map_value(self.entries@, i as int);
                    lemma_as_map_remove(self.entries@, i as int);
                }
                let pair = self.entries.remove(i);
                return Option::Some(pair.1);
            }
            i = i + 1;
        }
        proof {
            lemma_as_map_contains(self.entries@, id);
            assert(!self@.contains_key(id));
            assert(self@ =~= self@.remove(id));
        }
        Option::None
    }

    /// Insert `answer` under `id`, replacing any entry already there.
    pub fn insert(&mut self, id: u128, answer: T)
        requires
            old(self).wf(),
        ensures
            final(self).wf(),
            final(self)@ == old(self)@.insert(id, answer),
    {
        let _previous = self.remove(id);
        let ghost s = self.entries@;
        proof {
            lemma_as_map_contains(s, id);
            assert(forall|j: int| 0 <= j < s.len() ==> (#[trigger] s[j]).0 != id);
        }
        self.entries.push((id, answer));
        proof {
            assert(self.entries@.drop_last() =~= s);
            assert(self.entries@.last() == (id, answer));
            assert(self@ == as_map_rec(s).insert(id, answer));
            assert(as_map_rec(s).insert(id, answer) =~= old(self)@.insert(id, answer));
        }
    }

    /// How many writes are waiting.
    pub fn len(&self) -> (r: usize)
        requires
            self.wf(),
        ensures
            r == self@.dom().len(),
    {
        proof {
            lemma_as_map_len(self.entries@);
        }
        self.entries.len()
    }
}

// ---------------------------------------------------------------------------
// The two steps of the sync layer.
// ---------------------------------------------------------------------------

/// A write on its way to consensus, with the single-shot reply channel the
/// connection is waiting on.
pub struct SyncRequest<T> {
    pub message: InnerCmd,
    pub answer: T,
}

impl<T> SyncRequest<T> {
    pub fn new(message: InnerCmd, tx: T) -> (r: SyncRequest<T>)
        ensures
            r.message == message,
            r.answer == tx,
    {
        SyncRequest { message, answer: tx }
    }
}

/// Why a committed payload cannot be applied. Either is an invariant
/// violation: the process aborts on it.
#[derive(Clone, Copy, Debug, PartialEq, Eq, Structural)]
pub enum ApplyError {
    BadPayload,
    NotAWrite,
}

/// The submit step: serialise the message and file the reply channel under
/// its request id. The returned payload goes to the consensus input.
pub fn submit_step<T>(map: &mut RequestMap<T>, message: &InnerCmd, answer: T) -> (payload: Vec<
    u8,
>)
    requires
        old(map).wf(),
        !(inner_view(*message) matches InnerView::Ping),
    ensures
        final(map).wf(),
        final(map)@ == old(map)@.insert(inner_id(inner_view(*message)), answer),
        payload@ == enc_cmd(inner_view(*message)),
{
    let payload = message.encode_cmd();
    let id = message.get_request_id();
    map.insert(id, answer);
    payload
}

/// The apply step, run once per committed payload, in commit order: decode
/// it, apply it to storage exactly once, and remove at most one request-map
/// entry — the one filed under the payload's request id — handing back its
/// reply channel so the waiting client can be answered.
pub fn apply_step<T>(
    map: &mut RequestMap<T>,
    payload: &Vec<u8>,
    storage: &mut bitcask_engine_rs::bitcask::BitCask,
) -> (r: Result<(Result<(), StorageError>, Option<T>), ApplyError>)
    requires
        old(map).wf(),
    ensures
        final(map).wf(),
        match dec_cmd(payload@) {
            Option::Some(v) => if is_write(v) {
                match r {
                    Result::Ok((res, notify)) => handle_post(
                        v,
                        store_view(*old(storage)),
                        store_view(*final(storage)),
                        res,
                    ) && final(map)@ == old(map)@.remove(inner_id(v)) && (notify is Some
                        <==> old(map)@.contains_key(inner_id(v))) && (notify matches Option::Some(
                        t,
                    ) ==> t == old(map)@[inner_id(v)]),
                    Result::Err(_) => false,
                }
            } else {
                r == Result::Err::<(Result<(), StorageError>, Option<T>), ApplyError>(
                    ApplyError::NotAWrite,
                ) && final(map)@ == old(map)@ && store_view(*final(storage)) == store_view(
                    *old(storage),
                )
            },
            Option::None => r == Result::Err::<(Result<(), StorageError>, Option<T>), ApplyError>(
                ApplyError::BadPayload,
            ) && final(map)@ == old(map)@ && store_view(*final(storage)) == store_view(
                *old(storage),
            ),
        },
{
    match InnerCmd::decode_cmd(payload) {
        Option::None => Result::Err(ApplyError::BadPayload),
        Option::Some(cmd) => {
            let is_w = match &cmd {
                InnerCmd::Put(_, _, _, _) => true,
                InnerCmd::Del(_, _) => true,
                _ => false,
            };
            if !is_w {
                return Result::Err(ApplyError::NotAWrite);
            }
            let res = cmd.handle(storage);
            let id = cmd.get_request_id();
            let notify = map.remove(id);
            Result::Ok((res, notify))
        },
    }
}

// ---------------------------------------------------------------------------
// Ordering across replicas.
// ---------------------------------------------------------------------------

/// The contents a replica's storage reaches after applying a sequence of
/// committed payloads, in the order the commit channel delivers them.
pub open spec fn apply_commits(m0: Map<Seq<u8>, Seq<u8>>, ps: Seq<Seq<u8>>) -> Map<
    Seq<u8>,
    Seq<u8>,
>
    decreases ps.len(),
{
    if ps.len() == 0 {
        m0
    } else {
        let m1 = apply_commits(m0, ps.drop_last());
        match dec_cmd(ps.last()) {
            Option::Some(v) => apply_result(v, m1),
            Option::None => m1,
        }
    }
}

/// One more committed payload lands on the contents the earlier ones
/// reached: applications happen in delivery order.
pub proof fn lemma_apply_commits_step(m0: Map<Seq<u8>, Seq<u8>>, ps: Seq<Seq<u8>>, p: Seq<u8>)
    ensures
        apply_commits(m0, ps.push(p)) == (match dec_cmd(p) {
            Option::Some(v) => apply_result(v, apply_commits(m0, ps)),
            Option::None => apply_commits(m0, ps),
        }),
{
    assert(ps.push(p).drop_last() =~= ps);
    assert(ps.push(p).last() == p);
}

/// Law: ordering. Two replicas that start from the same contents and see
/// the same committed payloads, in the same order, reach the same
/// contents: the applied state is a function of the delivery order alone.
pub proof fn lemma_replicas_agree(
    a0: Map<Seq<u8>, Seq<u8>>,
    b0: Map<Seq<u8>, Seq<u8>>,
    ps: Seq<Seq<u8>>,
)
    requires
        a0 == b0,
    ensures
        apply_commits(a0, ps) == apply_commits(b0, ps),
{
}

// ---------------------------------------------------------------------------
// No map leak.
// ---------------------------------------------------------------------------

/// One event at the request map: a local submission files an id, a commit
/// of that id drains it.
pub enum SyncOp {
    Submit(u128),
    Commit(u128),
}

pub open spec fn op_submit_id(op: SyncOp) -> Option<u128> {
    match op {
        SyncOp::Submit(id) => Option::Some(id),
        SyncOp::Commit(_) => Option::None,
    }
}

pub open spec fn op_commit_id(op: SyncOp) -> Option<u128> {
    match op {
        SyncOp::Commit(id) => Option::Some(id),
        SyncOp::Submit(_) => Option::None,
    }
}

/// The ids the request map holds after a run of events, starting from `d`.
pub open spec fn run_sync_dom(d: Set<u128>, ops: Seq<SyncOp>) -> Set<u128>
    decreases ops.len(),
{
    if ops.len() == 0 {
        d
    } else {
        let d1 = run_sync_dom(d, ops.drop_last());
        match ops.last() {
            SyncOp::Submit(id) => d1.insert(id),
            SyncOp::Commit(id) => d1.remove(id),
        }
    }
}

pub open spec fn submitted_ids(ops: Seq<SyncOp>) -> Set<u128>
    decreases ops.len(),
{
    if ops.len() == 0 {
        Set::empty()
    } else {
        match op_submit_id(ops.last()) {
            Option::Some(id) => submitted_ids(ops.drop_last()).insert(id),
            Option::None => submitted_ids(ops.drop_last()),
        }
    }
}

pub open spec fn committed_ids(ops: Seq<SyncOp>) -> Set<u128>
    decreases ops.len(),
{
    if ops.len() == 0 {
        Set::empty()
    } else {
        match op_commit_id(ops.last()) {
            Option::Some(id) => committed_ids(ops.drop_last()).insert(id),
            Option::None => committed_ids(ops.drop_last()),
        }
    }
}

/// Every submission carries a fresh id.
pub open spec fn submits_unique(ops: Seq<SyncOp>) -> bool {
    forall|i: int, j: int|
        0 <= i < j < ops.len() ==> op_submit_id(#[trigger] ops[i]) is None || op_submit_id(
            ops[i],
        ) != op_submit_id(#[trigger] ops[j])
}

/// Every commit drains an id submitted before it.
pub open spec fn commits_follow_submits(ops: Seq<SyncOp>) -> bool {
    forall|j: int|
        0 <= j < ops.len() && op_commit_id(#[trigger] ops[j]) is Some ==> (exists|i: int|
            0 <= i < j && op_submit_id(#[trigger] ops[i]) == op_commit_id(ops[j]))
}

proof fn lemma_submitted_ids_contains(ops: Seq<SyncOp>, k: u128)
    ensures
        submitted_ids(ops).contains(k) <==> (exists|i: int|
            0 <= i < ops.len() && op_submit_id(#[trigger] ops[i]) == Option::Some(k)),
    decreases ops.len(),
{
    if ops.len() > 0 {
        lemma_submitted_ids_contains(ops.drop_last(), k);
        assert(ops.last() == ops[ops.len() - 1]);
        if submitted_ids(ops).contains(k) {
            if op_submit_id(ops.last()) == Option::Some(k) {
            } else {
                let i0 = choose|i: int|
                    0 <= i < ops.len() - 1 && op_submit_id(#[trigger] ops.drop_last()[i])
                        == Option::Some(k);
                assert(op_submit_id(ops[i0]) == Option::Some(k));
            }
        }
        if exists|i: int| 0 <= i < ops.len() && op_submit_id(#[trigger] ops[i]) == Option::Some(
            k,
        ) {
            let i0 = choose|i: int|
                0 <= i < ops.len() && op_submit_id(#[trigger] ops[i]) == Option::Some(k);
            if i0 < ops.len() - 1 {
                assert(op_submit_id(ops.drop_last()[i0]) == Option::Some(k));
            }
        }
    }
}

proof fn lemma_committed_ids_contains(ops: Seq<SyncOp>, k: u128)
    ensures
        committed_ids(ops).contains(k) <==> (exists|i: int|
            0 <= i < ops.len() && op_commit_id(#[trigger] ops[i]) == Option::Some(k)),
    decreases ops.len(),
{
    if ops.len() > 0 {
        lemma_committed_ids_contains(ops.drop_last(), k);
        assert(ops.last() == ops[ops.len() - 1]);
        if committed_ids(ops).contains(k) {
            if op_commit_id(ops.last()) == Option::Some(k) {
            } else {
                let i0 = choose|i: int|
                    0 <= i < ops.len() - 1 && op_commit_id(#[trigger] ops.drop_last()[i])
                        == Option::Some(k);
                assert(op_commit_id(ops[i0]) == Option::Some(k));
            }
        }
        if exists|i: int| 0 <= i < ops.len() && op_commit_id(#[trigger] ops[i]) == Option::Some(
            k,
        ) {
            let i0 = choose|i: int|
                0 <= i < ops.len() && op_commit_id(#[trigger] ops[i]) == Option::Some(k);
            if i0 < ops.len() - 1 {
                assert(op_commit_id(ops.drop_last()[i0]) == Option::Some(k));
            }
        }
    }
}

/// Law: no map leak. Starting from an empty map, if every submission
/// carries a fresh id and every commit drains an id submitted before it,
/// then after any interleaving exactly the submitted-but-uncommitted ids
/// remain in the map.
#[verifier::rlimit(60)]
pub proof fn lemma_no_map_leak(ops: Seq<SyncOp>)
    requires
        submits_unique(ops),
        commits_follow_submits(ops),
    ensures
        run_sync_dom(Set::empty(), ops) == submitted_ids(ops).difference(committed_ids(ops)),
    decreases ops.len(),
{
    if ops.len() == 0 {
        assert(run_sync_dom(Set::empty(), ops) =~= submitted_ids(ops).difference(
            committed_ids(ops),
        ));
    } else {
        let pre = ops.drop_last();
        assert(forall|a: int| 0 <= a < ops.len() - 1 ==> #[trigger] pre[a] == ops[a]);
        assert(submits_unique(pre));
        assert forall|j: int|
            0 <= j < pre.len() && op_commit_id(#[trigger] pre[j]) is Some implies (exists|i: int|
            0 <= i < j && op_submit_id(#[trigger] pre[i]) == op_commit_id(pre[j])) by {
            assert(op_commit_id(ops[j]) is Some);
            let i0 = choose|i: int|
                0 <= i < j && op_submit_id(#[trigger] ops[i]) == op_commit_id(ops[j]);
            assert(op_submit_id(pre[i0]) == op_commit_id(pre[j]));
        }
        assert(commits_follow_submits(pre));
        lemma_no_map_leak(pre);
        assert(ops.last() == ops[ops.len() - 1]);
        match ops.last() {
            SyncOp::Submit(id) => {
                assert(!committed_ids(pre).contains(id)) by {
                    lemma_committed_ids_contains(pre, id);
                    if exists|i: int|
                        0 <= i < pre.len() && op_commit_id(#[trigger] pre[i]) == Option::Some(
                            id,
                        ) {
                        let j0 = choose|i: int|
                            0 <= i < pre.len() && op_commit_id(#[trigger] pre[i]) == Option::Some(
                                id,
                            );
                        assert(op_commit_id(ops[j0]) == Option::Some(id));
                        let i0 = choose|i: int|
                            0 <= i < j0 && op_submit_id(#[trigger] ops[i]) == op_commit_id(
                                ops[j0],
                            );
                        assert(op_submit_id(ops[i0]) == Option::Some(id));
                        assert(op_submit_id(ops[ops.len() - 1]) == Option::Some(id));
                    }
                }
                assert(run_sync_dom(Set::empty(), ops) =~= submitted_ids(ops).difference(
                    committed_ids(ops),
                ));
            },
            SyncOp::Commit(id) => {
                assert(run_sync_dom(Set::empty(), ops) =~= submitted_ids(ops).difference(
                    committed_ids(ops),
                ));
            },
        }
    }
}


proof fn lemma_submitted_ids_finite(ops: Seq<SyncOp>)
    ensures
        submitted_ids(ops).finite(),
        committed_ids(ops).finite(),
    decreases ops.len(),
{
    if ops.len() > 0 {
        lemma_submitted_ids_finite(ops.drop_last());
    }
}

/// Law (corollary): counting entries. After `n` submissions of which `m`
/// have been committed, exactly `n - m` entries remain in the map.
pub proof fn lemma_map_count(ops: Seq<SyncOp>)
    requires
        submits_unique(ops),
        commits_follow_submits(ops),
        committed_ids(ops).subset_of(submitted_ids(ops)),
    ensures
        run_sync_dom(Set::empty(), ops).finite(),
        run_sync_dom(Set::empty(), ops).len() == submitted_ids(ops).len() - committed_ids(
            ops,
        ).len(),
{
    lemma_no_map_leak(ops);
    lemma_submitted_ids_finite(ops);
    let sub = submitted_ids(ops);
    let com = committed_ids(ops);
    let rest = sub.difference(com);
    assert(rest.disjoint(com));
    assert(rest + com =~= sub);
    vstd::set_lib::lemma_set_disjoint_lens(rest, com);
}

/// Law (corollary): after a run in which every submitted id is also
/// committed, the request map is empty.
pub proof fn lemma_map_drained(ops: Seq<SyncOp>)
    requires
        submits_unique(ops),
        commits_follow_submits(ops),
        submitted_ids(ops).subset_of(committed_ids(ops)),
    ensures
        run_sync_dom(Set::empty(), ops) == Set::<u128>::empty(),
{
    lemma_no_map_leak(ops);
    assert(submitted_ids(ops).difference(committed_ids(ops)) =~= Set::<u128>::empty());
}

} // verus!
