use vstd::prelude::*;
use crate::MAX_ENCODED_LEN;
use crate::backend::{StorageBackend, backend_counter, backend_records};
use crate::codec::{
    decode_record, encode_rec, encode_record, lemma_encode_injective, lemma_encode_len_bounds,
};
use crate::record::{
    Error, RecordView, TravelExperience, TravelExperiencePayload, make_not_found_delete_msg,
    make_not_found_read_msg, make_not_found_update_date_msg, make_not_found_update_msg,
    not_found_delete_msg, not_found_read_msg, not_found_update_date_msg, not_found_update_msg,
    record_of,
};
use crate::query::{
    all_in_id_order, entries_up_to, filter_by_date, filter_by_destination, insert_one, latest_of,
    lemma_entries_up_to_gap, lemma_entries_up_to_len, lemma_sort_by_date_sorted, seq_views,
    sort_by_date, sorted_by_date,
};

verus! {

/// Ghost model of the whole service: the persisted counter and the live
/// records, keyed by id.
#[verifier::ext_equal]
pub ghost struct StoreModel {
    pub counter: u64,
    pub records: Map<u64, RecordView>,
}

/// The invariant of every reachable store state: every live id was allocated
/// (positive, at most the counter), each record knows its own id, and each
/// record's serialized form fits the size bound.
pub open spec fn model_inv(m: StoreModel) -> bool {
    &&& m.records.dom().finite()
    &&& forall|k: u64| m.records.contains_key(k) ==> 1 <= k <= m.counter
    &&& forall|k: u64| m.records.contains_key(k) ==> (#[trigger] m.records[k]).id == k
    &&& forall|k: u64|
        m.records.contains_key(k) ==> encode_rec(#[trigger] m.records[k]).len()
            <= MAX_ENCODED_LEN
}

/// The durable travel experience store: a monotonic id allocator and a keyed
/// record map over two durable regions, with the query operations built on a
/// full ordered scan.
pub struct TravelStore {
    backend: StorageBackend,
    model: Ghost<StoreModel>,
}

impl View for TravelStore {
    type V = StoreModel;

    closed spec fn view(&self) -> StoreModel {
        self.model@
    }
}

impl TravelStore {
    /// Coherence of the ghost model with the durable backend: the backend
    /// stores exactly the serialized forms of the model's records.
    pub closed spec fn wf(&self) -> bool {
        &&& model_inv(self.model@)
        &&& backend_counter(self.backend) == self.model@.counter
        &&& backend_records(self.backend).dom() == self.model@.records.dom()
        &&& forall|k: u64|
            self.model@.records.contains_key(k) ==> backend_records(self.backend)[k]
                == encode_rec(#[trigger] self.model@.records[k])
    }

    /// Every well-formed store satisfies the model invariant.
    pub proof fn lemma_wf_model_inv(&self)
        requires
            self.wf(),
        ensures
            model_inv(self@),
    {
    }

    /// Opens a store over a fresh backing memory: no records, counter 0.
    pub fn new() -> (s: TravelStore)
        ensures
            s.wf(),
            s@.counter == 0,
            s@.records == Map::<u64, RecordView>::empty(),
    {
        let backend = StorageBackend::new();
        TravelStore {
            backend,
            model: Ghost(StoreModel { counter: 0, records: Map::empty() }),
        }
    }

    /// Inserts or replaces the record stored under `item.id`.  Only ids the
    /// allocator has handed out may be stored, which is what keeps deleted ids
    /// from ever coming back.
    pub fn do_insert_travel_experience(&mut self, item: &TravelExperience) -> (r: Result<
        (),
        Error,
    >)
        requires
            old(self).wf(),
            1 <= item.id <= old(self)@.counter,
        ensures
            final(self).wf(),
            final(self)@.counter == old(self)@.counter,
            r is Ok <==> encode_rec(item@).len() <= MAX_ENCODED_LEN,
            r is Ok ==> final(self)@.records == old(self)@.records.insert(item.id, item@),
            r matches Err(e) ==> e is EncodingFault && final(self)@ == old(self)@,
    {
        let encoded = encode_record(item);
        let n = encoded.as_str().unicode_len();
        if n > MAX_ENCODED_LEN {
            return Err(Error::EncodingFault);
        }
        let ghost m = self.model@;
        let _prev = self.backend.map_insert(item.id, encoded);
        self.model = Ghost(
            StoreModel { counter: m.counter, records: m.records.insert(item.id, item@) },
        );
        proof {
            assert(backend_records(self.backend).dom() =~= self.model@.records.dom());
        }
        Ok(())
    }

    /// Point lookup of the record stored under `id`.
    pub fn _get_travel_experience(&self, id: &u64) -> (r: Option<TravelExperience>)
        requires
            self.wf(),
        ensures
            r is Some <==> self@.records.contains_key(*id),
            r matches Some(rec) ==> rec@ == self@.records[*id],
    {
        match self.backend.map_get(*id) {
            Some(s) => {
                proof {
                    assert(s@ == encode_rec(self.model@.records[*id]));
                }
                let rec = decode_record(s.as_str());
                proof {
                    lemma_encode_injective(rec@, self.model@.records[*id]);
                }
                Some(rec)
            },
            None => None,
        }
    }

    /// Returns the record stored under `id`, or NotFound naming that id.
    pub fn get_travel_experience(&self, id: u64) -> (r: Result<TravelExperience, Error>)
        requires
            self.wf(),
        ensures
            r is Ok <==> self@.records.contains_key(id),
            r matches Ok(rec) ==> rec@ == self@.records[id],
            r matches Err(e) ==> e matches Error::NotFound { msg } && msg@ == not_found_read_msg(
                id,
            ),
    {
        match self._get_travel_experience(&id) {
            Some(rec) => Ok(rec),
            None => Err(Error::NotFound { msg: make_not_found_read_msg(id) }),
        }
    }

    /// Creates a record from the payload under a freshly allocated id.  The id
    /// is the successor of every id ever allocated before, so ids never repeat.
    /// Fails only on the two unrecoverable faults, leaving the store unchanged.
    pub fn add_travel_experience(&mut self, item: TravelExperiencePayload) -> (r: Result<
        TravelExperience,
        Error,
    >)
        requires
            old(self).wf(),
        ensures
            final(self).wf(),
            r is Ok <==> (old(self)@.counter < u64::MAX && encode_rec(
                record_of((old(self)@.counter + 1) as u64, item@),
            ).len() <= MAX_ENCODED_LEN),
            r matches Ok(rec) ==> {
                &&& rec.id == old(self)@.counter + 1
                &&& rec@ == record_of(rec.id, item@)
                &&& final(self)@.counter == old(self)@.counter + 1
                &&& final(self)@.records == old(self)@.records.insert(rec.id, rec@)
            },
            r matches Err(e) ==> {
                &&& final(self)@ == old(self)@
                &&& (e is AllocatorOverflow <==> old(self)@.counter == u64::MAX)
                &&& (e is EncodingFault || e is AllocatorOverflow)
            },
    {
        let c = self.backend.counter_get();
        if c == u64::MAX {
            return Err(Error::AllocatorOverflow);
        }
        let id = c + 1;
        let rec = TravelExperience {
            id,
            destination: item.destination,
            date: item.date,
            notes: item.notes,
            historical_events: item.historical_events,
        };
        let encoded = encode_record(&rec);
        let n = encoded.as_str().unicode_len();
        if n > MAX_ENCODED_LEN {
            return Err(Error::EncodingFault);
        }
        let ghost m = self.model@;
        self.backend.counter_set(id);
        let _prev = self.backend.map_insert(id, encoded);
        self.model = Ghost(StoreModel { counter: id, records: m.records.insert(id, rec@) });
        proof {
            assert(rec@ =~= record_of(id, item@));
            assert(backend_records(self.backend).dom() =~= self.model@.records.dom());
        }
        Ok(rec)
    }

    /// Replaces every payload field of the record stored under `id`, keeping
    /// its id; NotFound (naming the id) if absent, with nothing changed.
    pub fn update_travel_experience(&mut self, id: u64, item: TravelExperiencePayload) -> (r:
        Result<TravelExperience, Error>)
        requires
            old(self).wf(),
        ensures
            final(self).wf(),
            final(self)@.counter == old(self)@.counter,
            r is Ok <==> (old(self)@.records.contains_key(id) && encode_rec(record_of(id, item@)).len()
                <= MAX_ENCODED_LEN),
            r matches Ok(rec) ==> {
                &&& rec@ == record_of(id, item@)
                &&& final(self)@.records == old(self)@.records.insert(id, rec@)
            },
            r matches Err(e) ==> {
                &&& final(self)@ == old(self)@
                &&& (e matches Error::NotFound { msg } ==> !old(self)@.records.contains_key(id)
                    && msg@ == not_found_update_msg(id))
                &&& (e is EncodingFault ==> old(self)@.records.contains_key(id))
                &&& !(e is AllocatorOverflow)
            },
    {
        match self.backend.map_get(id) {
            Some(_) => {
                let rec = TravelExperience {
                    id,
                    destination: item.destination,
                    date: item.date,
                    notes: item.notes,
                    historical_events: item.historical_events,
                };
                proof {
                    assert(rec@ =~= record_of(id, item@));
                }
                match self.do_insert_travel_experience(&rec) {
                    Ok(()) => Ok(rec),
                    Err(e) => Err(e),
                }
            },
            None => Err(Error::NotFound { msg: make_not_found_update_msg(id) }),
        }
    }

    /// Replaces only the date of the record stored under `id`; every other
    /// field keeps its pre-call value.  NotFound (naming the id) if absent.
    /// Changing the fixed-width date never changes the serialized length, so
    /// this succeeds on every live id.
    pub fn update_travel_experience_date(&mut self, id: u64, new_date: u64) -> (r: Result<
        TravelExperience,
        Error,
    >)
        requires
            old(self).wf(),
        ensures
            final(self).wf(),
            final(self)@.counter == old(self)@.counter,
            r is Ok <==> old(self)@.records.contains_key(id),
            r matches Ok(rec) ==> {
                &&& rec@ == RecordView { date: new_date, ..old(self)@.records[id] }
                &&& rec.id == id
                &&& rec@.destination == old(self)@.records[id].destination
                &&& rec@.notes == old(self)@.records[id].notes
                &&& rec@.historical_events == old(self)@.records[id].historical_events
                &&& final(self)@.records == old(self)@.records.insert(id, rec@)
            },
            r matches Err(e) ==> {
                &&& final(self)@ == old(self)@
                &&& e matches Error::NotFound { msg } && msg@ == not_found_update_date_msg(id)
            },
    {
        match self._get_travel_experience(&id) {
            Some(prev) => {
                let rec = TravelExperience {
                    id: prev.id,
                    destination: prev.destination,
                    date: new_date,
                    notes: prev.notes,
                    historical_events: prev.historical_events,
                };
                proof {
                    let old_v = old(self)@.records[id];
                    assert(rec@ =~= RecordView { date: new_date, ..old_v });
                    lemma_encode_len_bounds(rec@);
                    lemma_encode_len_bounds(old_v);
                    assert(encode_rec(rec@).len() == encode_rec(old_v).len());
                }
                match self.do_insert_travel_experience(&rec) {
                    Ok(()) => Ok(rec),
                    Err(_) => {
                        proof {
                            assert(false);
                        }
                        Err(Error::EncodingFault)
                    },
                }
            },
            None => Err(Error::NotFound { msg: make_not_found_update_date_msg(id) }),
        }
    }

    /// Removes and returns the record stored under `id`; NotFound (naming the
    /// id) if absent.  The allocator is untouched, so the id is never reissued.
    pub fn delete_travel_experience(&mut self, id: u64) -> (r: Result<TravelExperience, Error>)
        requires
            old(self).wf(),
        ensures
            final(self).wf(),
            final(self)@.counter == old(self)@.counter,
            r is Ok <==> old(self)@.records.contains_key(id),
            r matches Ok(rec) ==> {
                &&& rec@ == old(self)@.records[id]
                &&& final(self)@.records == old(self)@.records.remove(id)
            },
            r matches Err(e) ==> {
                &&& final(self)@ == old(self)@
                &&& e matches Error::NotFound { msg } && msg@ == not_found_delete_msg(id)
            },
    {
        let ghost m = self.model@;
        let ghost pre_b = backend_records(self.backend);
        match self.backend.map_remove(id) {
            Some(s) => {
                proof {
                    assert(s@ == encode_rec(m.records[id]));
                }
                let rec = decode_record(s.as_str());
                proof {
                    lemma_encode_injective(rec@, m.records[id]);
                }
                self.model = Ghost(StoreModel { counter: m.counter, records: m.records.remove(id) });
                proof {
                    assert(backend_records(self.backend) == pre_b.remove(id));
                    assert(backend_records(self.backend).dom() =~= self.model@.records.dom());
                    assert forall|k: u64| self.model@.records.contains_key(k) implies backend_records(
                        self.backend,
                    )[k] == encode_rec(self.model@.records[k]) by {
                        assert(k != id);
                        assert(pre_b.remove(id)[k] == pre_b[k]);
                    }
                }
                Ok(rec)
            },
            None => {
                proof {
                    assert(!pre_b.contains_key(id));
                    assert(backend_records(self.backend) =~= pre_b);
                }
                Err(Error::NotFound { msg: make_not_found_delete_msg(id) })
            },
        }
    }

    /// Every live record, in ascending id order.
    #[verifier::loop_isolation(false)]
    pub fn get_all_travel_experiences(&self) -> (r: Vec<TravelExperience>)
        requires
            self.wf(),
        ensures
            seq_views(r@) == all_in_id_order(self@),
    {
        let entries = self.backend.map_entries();
        let ghost recs = self.model@.records;
        let mut out: Vec<TravelExperience> = Vec::new();
        proof {
            assert(seq_views(out@) =~= entries_up_to(recs, 0));
        }
        let mut i: usize = 0;
        while i < entries.len()
            invariant
                i <= entries@.len(),
                out@.len() == i,
                seq_views(out@) == entries_up_to(
                    recs,
                    if i == 0 {
                        0int
                    } else {
                        entries@[i - 1].0 as int
                    },
                ),
            decreases entries@.len() - i,
        {
            let ghost prev_bound: int = if i == 0 {
                0int
            } else {
                entries@[i - 1].0 as int
            };
            let k: u64 = entries[i].0;
            proof {
                assert(recs.contains_key(k));
                assert(entries@[i as int].1@ == encode_rec(recs[k]));
                assert(prev_bound < k as int);
                assert forall|kk: u64| prev_bound < kk as int <= k as int - 1 implies !(
                #[trigger] recs.contains_key(kk)) by {
                    if recs.contains_key(kk) {
                        let idx = choose|idx: int|
                            0 <= idx < entries@.len() && entries@[idx].0 == kk;
                        if idx < i as int {
                            assert(entries@[idx].0 <= entries@[i - 1].0);
                        } else {
                            assert(entries@[i as int].0 <= entries@[idx].0);
                        }
                    }
                }
                lemma_entries_up_to_gap(recs, prev_bound, k as int - 1);
                assert(entries_up_to(recs, k as int) =~= entries_up_to(recs, k as int - 1)
                    + seq![recs[k]]);
            }
            let rec = decode_record(entries[i].1.as_str());
            proof {
                lemma_encode_injective(rec@, recs[k]);
            }
            out.push(rec);
            proof {
                assert(seq_views(out@) =~= entries_up_to(recs, k as int));
            }
            i += 1;
        }
        proof {
            let n = entries@.len() as int;
            let last_bound: int = if n == 0 {
                0int
            } else {
                entries@[n - 1].0 as int
            };
            assert forall|kk: u64| last_bound < kk as int <= self.model@.counter as int implies !(
            #[trigger] recs.contains_key(kk)) by {
                if recs.contains_key(kk) {
                    let idx = choose|idx: int| 0 <= idx < entries@.len() && entries@[idx].0 == kk;
                    if idx < n - 1 {
                        assert(entries@[idx].0 <= entries@[n - 1].0);
                    }
                }
            }
            lemma_entries_up_to_gap(recs, last_bound, self.model@.counter as int);
        }
        out
    }

    /// The number of live records; always the length of the full scan.
    pub fn get_total_travel_experiences(&self) -> (n: u64)
        requires
            self.wf(),
        ensures
            n as nat == self@.records.dom().len(),
            n as nat == all_in_id_order(self@).len(),
    {
        proof {
            lemma_entries_up_to_len(self.model@.records, self.model@.counter as int);
        }
        self.backend.map_len()
    }

    /// The records dated at or before `date`, in ascending id order.
    #[verifier::loop_isolation(false)]
    pub fn get_travel_experiences_before_date(&self, date: u64) -> (r: Vec<TravelExperience>)
        requires
            self.wf(),
        ensures
            seq_views(r@) == filter_by_date(all_in_id_order(self@), date),
    {
        let all = self.get_all_travel_experiences();
        let ghost avs = seq_views(all@);
        let mut out: Vec<TravelExperience> = Vec::new();
        proof {
            assert(avs.take(0) =~= Seq::<RecordView>::empty());
            assert(seq_views(out@) =~= filter_by_date(avs.take(0), date));
        }
        let mut i: usize = 0;
        while i < all.len()
            invariant
                i <= all@.len(),
                seq_views(out@) == filter_by_date(avs.take(i as int), date),
            decreases all@.len() - i,
        {
            proof {
                assert(avs.take(i + 1).drop_last() =~= avs.take(i as int));
                assert(avs.take(i + 1).last() == avs[i as int]);
            }
            if all[i].date <= date {
                out.push(all[i].duplicate());
            }
            proof {
                assert(seq_views(out@) =~= filter_by_date(avs.take(i + 1), date));
            }
            i += 1;
        }
        proof {
            assert(avs.take(all@.len() as int) =~= avs);
        }
        out
    }

    /// How many records are dated at or before `date`, without materializing
    /// them: always the length of `get_travel_experiences_before_date`.
    #[verifier::loop_isolation(false)]
    pub fn get_travel_experiences_count_before_date(&self, date: u64) -> (n: usize)
        requires
            self.wf(),
        ensures
            n as nat == filter_by_date(all_in_id_order(self@), date).len(),
    {
        let all = self.get_all_travel_experiences();
        let ghost avs = seq_views(all@);
        let mut n: usize = 0;
        proof {
            assert(avs.take(0) =~= Seq::<RecordView>::empty());
        }
        let mut i: usize = 0;
        while i < all.len()
            invariant
                i <= all@.len(),
                n <= i,
                n as nat == filter_by_date(avs.take(i as int), date).len(),
            decreases all@.len() - i,
        {
            proof {
                assert(avs.take(i + 1).drop_last() =~= avs.take(i as int));
                assert(avs.take(i + 1).last() == avs[i as int]);
            }
            if all[i].date <= date {
                n += 1;
            }
            i += 1;
        }
        proof {
            assert(avs.take(all@.len() as int) =~= avs);
        }
        n
    }

    /// The records whose destination matches exactly, in ascending id order.
    #[verifier::loop_isolation(false)]
    pub fn search_travel_experiences_by_destination(&self, destination: String) -> (r: Vec<
        TravelExperience,
    >)
        requires
            self.wf(),
        ensures
            seq_views(r@) == filter_by_destination(all_in_id_order(self@), destination@),
    {
        let all = self.get_all_travel_experiences();
        let ghost avs = seq_views(all@);
        let mut out: Vec<TravelExperience> = Vec::new();
        proof {
            assert(avs.take(0) =~= Seq::<RecordView>::empty());
            assert(seq_views(out@) =~= filter_by_destination(avs.take(0), destination@));
        }
        let mut i: usize = 0;
        while i < all.len()
            invariant
                i <= all@.len(),
                seq_views(out@) == filter_by_destination(avs.take(i as int), destination@),
            decreases all@.len() - i,
        {
            proof {
                assert(avs.take(i + 1).drop_last() =~= avs.take(i as int));
                assert(avs.take(i + 1).last() == avs[i as int]);
            }
            if all[i].destination == destination {
                out.push(all[i].duplicate());
            }
            proof {
                assert(seq_views(out@) =~= filter_by_destination(avs.take(i + 1), destination@));
            }
            i += 1;
        }
        proof {
            assert(avs.take(all@.len() as int) =~= avs);
        }
        out
    }

    /// Every record ordered by date ascending, equal dates keeping ascending
    /// id order (the stable sort of the id-ordered scan).
    #[verifier::loop_isolation(false)]
    pub fn get_sorted_travel_experiences_by_date(&self) -> (r: Vec<TravelExperience>)
        requires
            self.wf(),
        ensures
            seq_views(r@) == sort_by_date(all_in_id_order(self@)),
            sorted_by_date(seq_views(r@)),
    {
        let all = self.get_all_travel_experiences();
        let ghost avs = seq_views(all@);
        let mut out: Vec<TravelExperience> = Vec::new();
        proof {
            assert(avs.take(0) =~= Seq::<RecordView>::empty());
            assert(seq_views(out@) =~= sort_by_date(avs.take(0)));
            lemma_sort_by_date_sorted(avs.take(0));
        }
        let mut i: usize = 0;
        while i < all.len()
            invariant
                i <= all@.len(),
                seq_views(out@) == sort_by_date(avs.take(i as int)),
                sorted_by_date(seq_views(out@)),
            decreases all@.len() - i,
        {
            proof {
                assert(avs.take(i + 1).drop_last() =~= avs.take(i as int));
                assert(avs.take(i + 1).last() == avs[i as int]);
            }
            insert_one(&mut out, all[i].duplicate());
            proof {
                assert(seq_views(out@) == sort_by_date(avs.take(i + 1)));
                lemma_sort_by_date_sorted(avs.take(i + 1));
            }
            i += 1;
        }
        proof {
            assert(avs.take(all@.len() as int) =~= avs);
        }
        out
    }

    /// The `count` newest records: the date sort reversed, truncated to
    /// `count`; all records when `count` exceeds their number, none for 0.
    #[verifier::loop_isolation(false)]
    pub fn get_latest_travel_experiences(&self, count: usize) -> (r: Vec<TravelExperience>)
        requires
            self.wf(),
        ensures
            seq_views(r@) == latest_of(self@, count as int),
    {
        let sorted = self.get_sorted_travel_experiences_by_date();
        let ghost svs = seq_views(sorted@);
        let len = sorted.len();
        let n = if count < len {
            count
        } else {
            len
        };
        let mut out: Vec<TravelExperience> = Vec::new();
        let mut i: usize = 0;
        while i < n
            invariant
                i <= n,
                out@.len() == i,
                forall|ii: int| 0 <= ii < i ==> seq_views(out@)[ii] == svs[svs.len() - 1 - ii],
            decreases n - i,
        {
            let ghost prev = out@;
            out.push(sorted[len - 1 - i].duplicate());
            proof {
                assert(out@ == prev.push(out@[i as int]));
                assert(seq_views(out@)[i as int] == sorted@[len - 1 - i]@);
                assert(sorted@[len - 1 - i]@ == svs[svs.len() - 1 - i]);
                assert forall|ii: int| 0 <= ii < i + 1 implies seq_views(out@)[ii] == svs[svs.len()
                    - 1 - ii] by {
                    if ii < i {
                        assert(out@[ii] == prev[ii]);
                        assert(seq_views(prev)[ii] == svs[svs.len() - 1 - ii]);
                    }
                }
            }
            i += 1;
        }
        proof {
            assert(seq_views(out@) =~= latest_of(self@, count as int));
        }
        out
    }
}

} // verus!
