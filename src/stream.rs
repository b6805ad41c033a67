//! Stream handles and the updates the stream channel pushes.
use vstd::prelude::*;
use crate::client::CallHandle;
use crate::codec::{Kind, Value, encode_value, ValueModel, encode_model};
use crate::error::RPCError;
use crate::krpc::{
    Argument, CallModel, ProcedureCall, ProcedureResult,
    ResultModel, decode_stream_message, entries_view, parse_stream_message,
};
use crate::client::result_matches;
use std::collections::HashMap;
use vstd::std_specs::iter::IteratorSpec;
pub use crate::client::mk_stream;

verus! {

broadcast use vstd::std_specs::hash::group_hash_axioms;

/// A stream the server runs, and the kind of the values it produces.
#[derive(Debug)]
pub struct StreamHandle {
    pub stream_id: u64,
    pub kind: Kind,
}

/// The call that ends stream `id`: the `RemoveStream` procedure of the
/// `KRPC` service, with the encoded identifier as its one argument.
pub open spec fn remove_stream_call(id: u64) -> CallModel {
    CallModel {
        service: seq!['K', 'R', 'P', 'C'],
        procedure: seq!['R', 'e', 'm', 'o', 'v', 'e', 'S', 't', 'r', 'e', 'a', 'm'],
        service_id: 0,
        procedure_id: 0,
        arguments: seq![(0u32, encode_model(ValueModel::U64(id)))],
    }
}

impl StreamHandle {
    pub fn new(stream_id: u64, kind: Kind) -> (r: StreamHandle)
        ensures
            r.stream_id == stream_id,
            r.kind == kind,
    {
        StreamHandle { stream_id, kind }
    }

    /// The call that ends this stream; its result holds no value.
    pub fn remove(self) -> (r: CallHandle)
        ensures
            r.proc_call@ == remove_stream_call(self.stream_id),
            r.kind == Kind::Unit,
    {
        let arg = encode_value(&Value::U64(self.stream_id));
        let service = "KRPC".to_string();
        let procedure = "RemoveStream".to_string();
        proof {
            reveal_strlit("KRPC");
            reveal_strlit("RemoveStream");
            assert(service@ =~= seq!['K', 'R', 'P', 'C']);
            assert(procedure@ =~= seq!['R', 'e', 'm', 'o', 'v', 'e', 'S', 't', 'r', 'e', 'a', 'm']);
        }
        let mut arguments: Vec<Argument> = Vec::new();
        arguments.push(Argument { position: 0, value: arg });
        let proc_call = ProcedureCall { service, procedure, service_id: 0, procedure_id: 0, arguments };
        assert(proc_call@.arguments =~= seq![(0u32, proc_call.arguments@[0].value@)]);
        CallHandle::new(proc_call, Kind::Unit)
    }
}

/// The latest result of each stream in `es`: a later entry for a stream
/// replaces an earlier one.
pub open spec fn update_map(es: Seq<(u64, ResultModel)>) -> Map<u64, ResultModel>
    decreases es.len(),
{
    if es.len() == 0 {
        Map::empty()
    } else {
        let e = es[es.len() - 1];
        update_map(es.subrange(0, es.len() - 1)).insert(e.0, e.1)
    }
}

/// The results that the stream channel pushed, by stream identifier.
#[derive(Debug)]
pub struct StreamUpdate {
    updates: HashMap<u64, ProcedureResult>,
}

/// The models of the results in `m`.
pub open spec fn results_map(m: Map<u64, ProcedureResult>) -> Map<u64, ResultModel> {
    m.map_values(|r: ProcedureResult| r@)
}

impl View for StreamUpdate {
    type V = Map<u64, ResultModel>;

    closed spec fn view(&self) -> Map<u64, ResultModel> {
        results_map(self.updates@)
    }
}

proof fn lemma_update_map_push(es: Seq<(u64, ResultModel)>, e: (u64, ResultModel))
    ensures
        update_map(es.push(e)) == update_map(es).insert(e.0, e.1),
{
    assert(es.push(e).subrange(0, es.len() as int) =~= es);
}

/// The identifiers of the streams in `m`, each once.
fn stream_ids(m: &HashMap<u64, ProcedureResult>) -> (r: Vec<u64>)
    ensures
        r@.to_set() == m@.dom(),
        r@.no_duplicates(),
{
    let ghost ks = vstd::std_specs::hash::spec_keys_iter(m).remaining();
    let mut ids: Vec<u64> = Vec::new();
    for k in it: m.keys()
        invariant
            it.seq() == ks,
            ids@ == ks.subrange(0, it.index() as int).map_values(|k: &u64| *k),
    {
        ids.push(*k);
        assert(ids@ =~= ks.subrange(0, it.index() + 1).map_values(|k: &u64| *k));
    }
    assert(ids@ =~= ks.map_values(|k: &u64| *k));
    assert(ks.unref() =~= ids@);
    ids
}

impl StreamUpdate {
    /// An update that holds no result.
    pub fn empty() -> (r: StreamUpdate)
        ensures
            r@ == Map::<u64, ResultModel>::empty(),
    {
        let r = StreamUpdate { updates: HashMap::new() };
        assert(results_map(r.updates@) =~= Map::<u64, ResultModel>::empty());
        r
    }

    /// Sets the latest result of stream `id`, in place of any it held.
    pub fn put(&mut self, id: u64, result: ProcedureResult)
        ensures
            final(self)@ == old(self)@.insert(id, result@),
    {
        let ghost rv = result@;
        self.updates.insert(id, result);
        assert(results_map(self.updates@) =~= results_map(old(self).updates@).insert(id, rv));
    }

    /// The update that a push frame's entries make, in the order they came:
    /// a later entry for a stream replaces an earlier one.
    pub fn from_entries(entries: Vec<(u64, ProcedureResult)>) -> (r: StreamUpdate)
        ensures
            r@ == update_map(entries_view(entries@)),
    {
        let ghost es = entries_view(entries@);
        let mut rest = entries;
        let n = rest.len();
        let mut u = StreamUpdate::empty();
        let mut i: usize = 0;
        assert(es.subrange(0, 0) =~= Seq::<(u64, ResultModel)>::empty());
        assert(es.subrange(0, n as int) =~= es);
        while i < n
            invariant
                i <= n == es.len(),
                rest@.len() == n - i,
                entries_view(rest@) == es.subrange(i as int, n as int),
                u@ == update_map(es.subrange(0, i as int)),
            decreases n - i,
        {
            let ghost r0 = rest@;
            let (id, result) = rest.remove(0);
            let ghost e = (id, result@);
            assert(entries_view(r0)[0] == e);
            assert(es.subrange(i as int, n as int)[0] == es[i as int]);
            assert(rest@ =~= r0.subrange(1, r0.len() as int));
            assert(entries_view(rest@) =~= entries_view(r0).subrange(1, r0.len() as int));
            assert(entries_view(rest@) =~= es.subrange(i + 1, n as int));
            u.put(id, result);
            proof {
                assert(es.subrange(0, i + 1) =~= es.subrange(0, i as int).push(e));
                lemma_update_map_push(es.subrange(0, i as int), e);
            }
            i = i + 1;
        }
        u
    }

    /// Decodes a push frame of the stream channel; `None` where the bytes
    /// hold none.
    pub fn decode(b: &[u8]) -> (r: Option<StreamUpdate>)
        ensures
            match parse_stream_message(b@) {
                Some(es) => r matches Some(u) && u@ == update_map(es),
                None => r is None,
            },
    {
        match decode_stream_message(b) {
            Some(entries) => Some(StreamUpdate::from_entries(entries)),
            None => None,
        }
    }

    /// The latest value of the stream, decoded as the stream's kind; the
    /// unknown-stream error where this update holds no result for it.
    pub fn get_result(&self, handle: &StreamHandle) -> (r: Result<Value, RPCError>)
        ensures
            if self@.contains_key(handle.stream_id) {
                result_matches(r, self@[handle.stream_id], handle.kind)
            } else {
                r matches Err(RPCError::NoSuchStream)
            },
    {
        match self.updates.get(&handle.stream_id) {
            Some(result) => crate::client::extract_result(result, &handle.kind),
            None => Err(RPCError::NoSuchStream),
        }
    }

    /// Merges a later update into this one: each stream that `other` holds
    /// takes its result from `other`, the others keep theirs. The server
    /// leaves out streams whose value has not changed, so a merged update
    /// keeps the last known value of each.
    pub fn merge_with(&mut self, other: StreamUpdate)
        ensures
            final(self)@ == old(self)@.union_prefer_right(other@),
    {
        let ghost base = self@;
        let ghost orig = other.updates@;
        let mut om = other.updates;
        let ids = stream_ids(&om);
        let mut i: usize = 0;
        assert(ids@.subrange(0, 0).to_set() =~= Set::<u64>::empty());
        assert(base.union_prefer_right(results_map(orig).restrict(Set::<u64>::empty())) =~= base);
        while i < ids.len()
            invariant
                i <= ids@.len(),
                ids@.to_set() == orig.dom(),
                ids@.no_duplicates(),
                forall|j: int|
                    i <= j < ids@.len() ==> om@.contains_key(#[trigger] ids@[j]) && om@[ids@[j]]
                        == orig[ids@[j]],
                self@ == base.union_prefer_right(
                    results_map(orig).restrict(ids@.subrange(0, i as int).to_set()),
                ),
            decreases ids@.len() - i,
        {
            let id = ids[i];
            let ghost pre = om@;
            let taken = om.remove(&id);
            assert(ids@.contains(id));
            assert(orig.contains_key(id));
            match taken {
                Some(result) => {
                    assert(result == orig[id]);
                    let ghost before = self@;
                    self.put(id, result);
                    proof {
                        assert forall|j: int| i + 1 <= j < ids@.len() implies om@.contains_key(
                            #[trigger] ids@[j],
                        ) && om@[ids@[j]] == orig[ids@[j]] by {
                            assert(ids@[j] != ids@[i as int]);
                        }
                        assert(ids@.subrange(0, i + 1) =~= ids@.subrange(0, i as int).push(id));
                        ids@.subrange(0, i as int).lemma_push_to_set_commute(id);
                        assert(ids@.subrange(0, i + 1).to_set() =~= ids@.subrange(
                            0,
                            i as int,
                        ).to_set().insert(id));
                        assert(self@ =~= base.union_prefer_right(
                            results_map(orig).restrict(ids@.subrange(0, i + 1).to_set()),
                        ));
                    }
                },
                None => {
                    assert(false);
                },
            }
            i = i + 1;
        }
        assert(ids@.subrange(0, ids@.len() as int) =~= ids@);
        assert(results_map(orig).restrict(ids@.to_set()) =~= results_map(orig));
    }
}

/// Merging an update `u2` into `u1` gives `u1` with each stream of `u2`
/// taking its result from `u2`, and each stream that only `u1` holds keeping
/// its result; merging an empty update changes nothing.
pub proof fn lemma_merge(u1: Map<u64, ResultModel>, u2: Map<u64, ResultModel>)
    ensures
        u1.union_prefer_right(u2).dom() == u1.dom().union(u2.dom()),
        forall|id: u64| #[trigger]
            u2.contains_key(id) ==> u1.union_prefer_right(u2)[id] == u2[id],
        forall|id: u64|
            u1.contains_key(id) && !u2.contains_key(id) ==> #[trigger] u1.union_prefer_right(
                u2,
            )[id] == u1[id],
        u2.dom().len() == 0 && u2.dom().finite() ==> u1.union_prefer_right(u2) == u1,
{
    if u2.dom().len() == 0 && u2.dom().finite() {
        assert(u2.dom() =~= Set::<u64>::empty()) by {
            if exists|k: u64| u2.dom().contains(k) {
                let k = choose|k: u64| u2.dom().contains(k);
                vstd::set_lib::lemma_set_empty_equivalency_len(u2.dom());
            }
        }
        assert(u1.union_prefer_right(u2) =~= u1);
    }
    assert(u1.union_prefer_right(u2).dom() =~= u1.dom().union(u2.dom()));
}

} // verus!
