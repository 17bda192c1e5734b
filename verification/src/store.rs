//! Store engine: the sole owner of the key/value mapping. The mapping is
//! held as an association vector with unique keys and is viewed as a
//! mathematical map from key bytes to value bytes. The engine consumes
//! operations strictly in arrival order — `run_ops` is the worker's drain
//! of one queue prefix — so the order of the operation sequence is the one
//! total order in which all mutations take effect.

use vstd::prelude::*;
use crate::util::{bytes_eq, copy_range};

verus! {

/// A request to the store engine.
pub enum Operation {
    Get { key: Vec<u8> },
    Put { key: Vec<u8>, value: Vec<u8> },
}

/// The reply matching an [`Operation`]: the GET value is present iff the
/// key existed when the operation was processed; a put is acknowledged
/// unconditionally.
pub enum OperationResult {
    GetResult { key: Vec<u8>, value: Option<Vec<u8>> },
    PutResult { key: Vec<u8> },
}

/// Mathematical shape of an operation.
pub enum OpModel {
    Get { key: Seq<u8> },
    Put { key: Seq<u8>, value: Seq<u8> },
}

/// Mathematical shape of an operation's reply.
pub enum ResModel {
    GetResult { key: Seq<u8>, value: Option<Seq<u8>> },
    PutResult { key: Seq<u8> },
}

impl View for Operation {
    type V = OpModel;

    open spec fn view(&self) -> OpModel {
        match self {
            Operation::Get { key } => OpModel::Get { key: key@ },
            Operation::Put { key, value } => OpModel::Put { key: key@, value: value@ },
        }
    }
}

impl View for OperationResult {
    type V = ResModel;

    open spec fn view(&self) -> ResModel {
        match self {
            OperationResult::GetResult { key, value } => ResModel::GetResult {
                key: key@,
                value: match value {
                    Some(v) => Some(v@),
                    None => None,
                },
            },
            OperationResult::PutResult { key } => ResModel::PutResult { key: key@ },
        }
    }
}

/// The mapping after one operation: a get leaves it unchanged, a put
/// inserts or replaces the binding for its key.
pub open spec fn apply_op_state(m: Map<Seq<u8>, Seq<u8>>, op: OpModel) -> Map<Seq<u8>, Seq<u8>> {
    match op {
        OpModel::Get { key } => m,
        OpModel::Put { key, value } => m.insert(key, value),
    }
}

/// The reply owed to one operation against a given mapping.
pub open spec fn apply_op_result(m: Map<Seq<u8>, Seq<u8>>, op: OpModel) -> ResModel {
    match op {
        OpModel::Get { key } => ResModel::GetResult {
            key,
            value: if m.contains_key(key) {
                Some(m[key])
            } else {
                None
            },
        },
        OpModel::Put { key, value } => ResModel::PutResult { key },
    }
}

/// The mapping after a whole sequence of operations, applied in order.
pub open spec fn apply_ops_state(m: Map<Seq<u8>, Seq<u8>>, ops: Seq<OpModel>) -> Map<
    Seq<u8>,
    Seq<u8>,
>
    decreases ops.len(),
{
    if ops.len() == 0 {
        m
    } else {
        apply_op_state(apply_ops_state(m, ops.drop_last()), ops.last())
    }
}

/// The sequence of replies a sequence of operations earns, each computed
/// against the mapping left by the operations before it.
pub open spec fn results_of(m: Map<Seq<u8>, Seq<u8>>, ops: Seq<OpModel>) -> Seq<ResModel>
    decreases ops.len(),
{
    if ops.len() == 0 {
        Seq::empty()
    } else {
        results_of(m, ops.drop_last()).push(
            apply_op_result(apply_ops_state(m, ops.drop_last()), ops.last()),
        )
    }
}

spec fn entry_keys_unique(s: Seq<(Vec<u8>, Vec<u8>)>) -> bool {
    forall|i: int, j: int| 0 <= i < j < s.len() ==> s[i].0@ != s[j].0@
}

spec fn map_of(s: Seq<(Vec<u8>, Vec<u8>)>) -> Map<Seq<u8>, Seq<u8>>
    decreases s.len(),
{
    if s.len() == 0 {
        Map::empty()
    } else {
        map_of(s.drop_last()).insert(s.last().0@, s.last().1@)
    }
}

proof fn lemma_map_of_at(s: Seq<(Vec<u8>, Vec<u8>)>, i: int)
    requires
        entry_keys_unique(s),
        0 <= i < s.len(),
    ensures
        map_of(s).contains_key(s[i].0@),
        map_of(s)[s[i].0@] == s[i].1@,
    decreases s.len(),
{
    if i == s.len() - 1 {
    } else {
        lemma_map_of_at(s.drop_last(), i);
        assert(s.last().0@ != s[i].0@);
    }
}

proof fn lemma_map_of_absent(s: Seq<(Vec<u8>, Vec<u8>)>, k: Seq<u8>)
    requires
        forall|i: int| 0 <= i < s.len() ==> s[i].0@ != k,
    ensures
        !map_of(s).contains_key(k),
    decreases s.len(),
{
    if s.len() > 0 {
        lemma_map_of_absent(s.drop_last(), k);
    }
}

proof fn lemma_map_of_update(s: Seq<(Vec<u8>, Vec<u8>)>, i: int, e: (Vec<u8>, Vec<u8>))
    requires
        entry_keys_unique(s),
        0 <= i < s.len(),
        e.0@ == s[i].0@,
    ensures
        map_of(s.update(i, e)) == map_of(s).insert(e.0@, e.1@),
    decreases s.len(),
{
    let t = s.update(i, e);
    if i == s.len() - 1 {
        assert(t.drop_last() =~= s.drop_last());
        assert(map_of(t) == map_of(s.drop_last()).insert(e.0@, e.1@));
        assert(map_of(s).insert(e.0@, e.1@) =~= map_of(s.drop_last()).insert(e.0@, e.1@));
    } else {
        assert(t.drop_last() =~= s.drop_last().update(i, e));
        lemma_map_of_update(s.drop_last(), i, e);
        assert(t.last() == s.last());
        assert(s.last().0@ != e.0@);
        assert(map_of(t) == map_of(s.drop_last()).insert(e.0@, e.1@).insert(
            s.last().0@,
            s.last().1@,
        ));
        assert(map_of(s.drop_last()).insert(e.0@, e.1@).insert(s.last().0@, s.last().1@)
            =~= map_of(s.drop_last()).insert(s.last().0@, s.last().1@).insert(e.0@, e.1@));
    }
}

/// The key/value store: an association vector with unique keys, owned by
/// the store engine alone and viewed as a map from key to value.
pub struct Store {
    entries: Vec<(Vec<u8>, Vec<u8>)>,
}

impl View for Store {
    type V = Map<Seq<u8>, Seq<u8>>;

    closed spec fn view(&self) -> Map<Seq<u8>, Seq<u8>> {
        map_of(self.entries@)
    }
}

impl Store {
    /// Each key is bound at most once.
    pub closed spec fn wf(self) -> bool {
        entry_keys_unique(self.entries@)
    }

    /// An empty store: no key has ever been set.
    pub fn new() -> (r: Self)
        ensures
            r.wf(),
            r@ == Map::<Seq<u8>, Seq<u8>>::empty(),
    {
        Store { entries: Vec::new() }
    }

    /// The current value bound to `key`, or `None` if the key is absent.
    pub fn get(&self, key: &[u8]) -> (r: Option<Vec<u8>>)
        requires
            self.wf(),
        ensures
            match r {
                Some(v) => self@.contains_key(key@) && self@[key@] == v@,
                None => !self@.contains_key(key@),
            },
    {
        let n = self.entries.len();
        let mut i: usize = 0;
        while i < n
            invariant
                self.wf(),
                i <= n == self.entries@.len(),
                forall|j: int| 0 <= j < i ==> self.entries@[j].0@ != key@,
            decreases n - i,
        {
            let e = &self.entries[i];
            if bytes_eq(e.0.as_slice(), key) {
                proof {
                    lemma_map_of_at(self.entries@, i as int);
                }
                return Some(copy_range(e.1.as_slice(), 0, e.1.len()));
            }
            i = i + 1;
        }
        proof {
            lemma_map_of_absent(self.entries@, key@);
        }
        None
    }

    /// Binds `key` to `value`, replacing any earlier binding: the store
    /// afterwards is the old mapping with this one insertion.
    pub fn set(&mut self, key: Vec<u8>, value: Vec<u8>)
        requires
            old(self).wf(),
        ensures
            final(self).wf(),
            final(self)@ == old(self)@.insert(key@, value@),
    {
        let n = self.entries.len();
        let mut i: usize = 0;
        while i < n
            invariant
                self.wf(),
                self.entries@ == old(self).entries@,
                i <= n == self.entries@.len(),
                forall|j: int| 0 <= j < i ==> self.entries@[j].0@ != key@,
            decreases n - i,
        {
            let hit = {
                let e = &self.entries[i];
                bytes_eq(e.0.as_slice(), key.as_slice())
            };
            if hit {
                proof {
                    lemma_map_of_update(self.entries@, i as int, (key, value));
                }
                let entry = &mut self.entries[i];
                *entry = (key, value);
                proof {
                    assert(self.entries@ =~= old(self).entries@.update(i as int, (key, value)));
                    assert forall|p: int, q: int|
                        0 <= p < q < self.entries@.len() implies self.entries@[p].0@
                        != self.entries@[q].0@ by {
                        assert(old(self).entries@[p].0@ != old(self).entries@[q].0@);
                    }
                }
                return ;
            }
            i = i + 1;
        }
        proof {
            lemma_map_of_absent(self.entries@, key@);
        }
        self.entries.push((key, value));
        proof {
            assert(self.entries@.drop_last() =~= old(self).entries@);
            assert forall|p: int, q: int|
                0 <= p < q < self.entries@.len() implies self.entries@[p].0@
                != self.entries@[q].0@ by {
                if q < self.entries@.len() - 1 {
                    assert(old(self).entries@[p].0@ != old(self).entries@[q].0@);
                }
            }
        }
    }

    /// Processes one operation: consults or mutates the mapping and hands
    /// back the one reply that operation earns.
    pub fn apply(&mut self, op: Operation) -> (r: OperationResult)
        requires
            old(self).wf(),
        ensures
            final(self).wf(),
            final(self)@ == apply_op_state(old(self)@, op@),
            r@ == apply_op_result(old(self)@, op@),
    {
        match op {
            Operation::Get { key } => {
                let value = self.get(key.as_slice());
                OperationResult::GetResult { key, value }
            },
            Operation::Put { key, value } => {
                let key_copy = copy_range(key.as_slice(), 0, key.len());
                proof {
                    assert(key_copy@ =~= key@);
                }
                self.set(key, value);
                OperationResult::PutResult { key: key_copy }
            },
        }
    }

    /// Drains one batch of queued operations strictly in order, as the
    /// engine's single worker does: the final mapping and every reply are
    /// exactly those of the sequential application, so queue order is the
    /// one total order of all mutations.
    pub fn run_ops(&mut self, ops: &Vec<Operation>) -> (r: Vec<OperationResult>)
        requires
            old(self).wf(),
        ensures
            final(self).wf(),
            final(self)@ == apply_ops_state(old(self)@, ops@.map_values(|op: Operation| op@)),
            r@.map_values(|res: OperationResult| res@) == results_of(
                old(self)@,
                ops@.map_values(|op: Operation| op@),
            ),
    {
        let ghost ops_m = ops@.map_values(|op: Operation| op@);
        let mut r: Vec<OperationResult> = Vec::new();
        let n = ops.len();
        let mut i: usize = 0;
        while i < n
            invariant
                self.wf(),
                i <= n == ops@.len(),
                ops_m == ops@.map_values(|op: Operation| op@),
                self@ == apply_ops_state(old(self)@, ops_m.take(i as int)),
                r@.map_values(|res: OperationResult| res@) == results_of(
                    old(self)@,
                    ops_m.take(i as int),
                ),
            decreases n - i,
        {
            let op = clone_op(&ops[i]);
            let res = self.apply(op);
            r.push(res);
            proof {
                assert(ops_m.take(i as int + 1).drop_last() =~= ops_m.take(i as int));
                assert(ops_m.take(i as int + 1).last() == ops_m[i as int]);
                assert(r@.map_values(|res: OperationResult| res@) =~= results_of(
                    old(self)@,
                    ops_m.take(i as int + 1),
                ));
            }
            i = i + 1;
        }
        proof {
            assert(ops_m.take(n as int) =~= ops_m);
        }
        r
    }
}

/// An exact copy of an operation, so a queued operation can be replayed
/// without giving up the queue.
pub fn clone_op(op: &Operation) -> (r: Operation)
    ensures
        r@ == op@,
{
    match op {
        Operation::Get { key } => {
            let k = copy_range(key.as_slice(), 0, key.len());
            proof {
                assert(k@ =~= key@);
            }
            Operation::Get { key: k }
        },
        Operation::Put { key, value } => {
            let k = copy_range(key.as_slice(), 0, key.len());
            let v = copy_range(value.as_slice(), 0, value.len());
            proof {
                assert(k@ =~= key@);
                assert(v@ =~= value@);
            }
            Operation::Put { key: k, value: v }
        },
    }
}


/// There is one reply per operation.
pub proof fn lemma_results_len(m: Map<Seq<u8>, Seq<u8>>, ops: Seq<OpModel>)
    ensures
        results_of(m, ops).len() == ops.len(),
    decreases ops.len(),
{
    if ops.len() > 0 {
        lemma_results_len(m, ops.drop_last());
    }
}

/// Linearization: every reply is determined by the single total order in
/// which the engine dequeues operations — the reply at position `i` is the
/// reply of operation `i` against the mapping left by the prefix before it,
/// for every connection alike.
pub proof fn lemma_linearization(m: Map<Seq<u8>, Seq<u8>>, ops: Seq<OpModel>, i: int)
    requires
        0 <= i < ops.len(),
    ensures
        results_of(m, ops).len() == ops.len(),
        results_of(m, ops)[i] == apply_op_result(apply_ops_state(m, ops.take(i)), ops[i]),
    decreases ops.len(),
{
    lemma_results_len(m, ops);
    lemma_results_len(m, ops.drop_last());
    if i == ops.len() - 1 {
        assert(ops.take(i) =~= ops.drop_last());
    } else {
        lemma_linearization(m, ops.drop_last(), i);
        assert(ops.drop_last().take(i) =~= ops.take(i));
        assert(ops.drop_last()[i] == ops[i]);
    }
}

/// Whether an operation writes under key `k`.
pub open spec fn op_puts_key(op: OpModel, k: Seq<u8>) -> bool {
    match op {
        OpModel::Put { key, .. } => key == k,
        OpModel::Get { .. } => false,
    }
}

/// A key that no operation in a history puts stays absent through that
/// history.
pub proof fn lemma_no_put_keeps_absent(m: Map<Seq<u8>, Seq<u8>>, ops: Seq<OpModel>, k: Seq<u8>)
    requires
        !m.contains_key(k),
        forall|i: int| 0 <= i < ops.len() ==> !op_puts_key(#[trigger] ops[i], k),
    ensures
        !apply_ops_state(m, ops).contains_key(k),
    decreases ops.len(),
{
    if ops.len() > 0 {
        lemma_no_put_keeps_absent(m, ops.drop_last(), k);
        assert(!op_puts_key(ops[ops.len() - 1], k));
    }
}

/// A key never set returns absent: against the store built from any
/// history that contains no put of `k`, starting empty, a get of `k`
/// replies with no value.
pub proof fn lemma_never_set_absent(ops: Seq<OpModel>, k: Seq<u8>)
    requires
        forall|i: int| 0 <= i < ops.len() ==> !op_puts_key(#[trigger] ops[i], k),
    ensures
        apply_op_result(apply_ops_state(Map::empty(), ops), OpModel::Get { key: k })
            == (ResModel::GetResult { key: k, value: None }),
{
    lemma_no_put_keeps_absent(Map::empty(), ops, k);
}

/// Last write wins: after putting `v1` and then `v2` under the same key,
/// a get of that key replies with `v2`.
pub proof fn lemma_last_write_wins(m: Map<Seq<u8>, Seq<u8>>, k: Seq<u8>, v1: Seq<u8>, v2: Seq<u8>)
    ensures
        apply_op_result(
            apply_ops_state(
                m,
                seq![OpModel::Put { key: k, value: v1 }, OpModel::Put { key: k, value: v2 }],
            ),
            OpModel::Get { key: k },
        ) == (ResModel::GetResult { key: k, value: Some(v2) }),
{
    let ops = seq![OpModel::Put { key: k, value: v1 }, OpModel::Put { key: k, value: v2 }];
    assert(ops.drop_last() =~= seq![OpModel::Put { key: k, value: v1 }]);
    assert(ops.drop_last().drop_last() =~= Seq::<OpModel>::empty());
}

} // verus!

