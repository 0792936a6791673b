use crate::cell::{spec_cell_ready, spec_cell_value, StableCell};
use crate::codec::{
    lemma_job_round_trip, spec_decode_job, spec_encode_job, Job, JobPayload, JobV,
    JOB_MAX_ENCODED_SIZE,
};
use crate::errors::Error;
use crate::region::{
    backing_wf, get_region, spec_num_pages, spec_page_count, RegionManager, MAX_DATA_PAGES,
};
use crate::storage::{
    key_index, lemma_erase_props, lemma_store_props, map_wf, save_fits, spec_contains_key,
    spec_erase, spec_find, spec_store, spec_table, StableMap,
};
use vstd::prelude::*;

verus! {

/// Region holding the id counter.
pub const COUNTER_REGION: u8 = 0;

/// Region holding the sorted record map.
pub const JOBS_REGION: u8 = 1;

/// The record a byte string decodes to, or a throwaway record for bytes
/// that do not decode (well-formed stores never hold such bytes).
pub open spec fn job_of_bytes(v: Seq<u8>) -> JobV {
    match spec_decode_job(v) {
        Option::Some(j) => j,
        Option::None => JobV {
            id: 0,
            title: Seq::empty(),
            description: Seq::empty(),
            skills_required: Seq::empty(),
            created_at: 0,
        },
    }
}

pub open spec fn some_bytes(o: Option<Seq<u8>>) -> Seq<u8> {
    match o {
        Option::Some(v) => v,
        Option::None => Seq::empty(),
    }
}

/// Every stored entry decodes to a record carrying its own key as id, and
/// every key was issued, i.e. lies below the counter.
pub open spec fn entries_ok(es: Seq<(u64, Seq<u8>)>, counter: u64) -> bool {
    forall|i: int|
        0 <= i < es.len() ==> {
            &&& spec_decode_job((#[trigger] es[i]).1) is Some
            &&& job_of_bytes(es[i].1).id == es[i].0
            &&& es[i].0 < counter
        }
}

/// One `create` call: the returned id is the counter before the call, and
/// the counter advances by exactly one.
pub open spec fn create_step(pre_counter: u64, post_counter: u64, id: u64) -> bool {
    id == pre_counter && post_counter == pre_counter + 1
}

/// The records a table holds, by id.
pub open spec fn jobs_of(t: Seq<(u64, Seq<u8>)>) -> Map<u64, JobV> {
    Map::new(
        |k: u64| spec_contains_key(t, k),
        |k: u64| job_of_bytes(some_bytes(spec_find(t, k))),
    )
}

proof fn lemma_jobs_of_insert(old_t: Seq<(u64, Seq<u8>)>, new_t: Seq<(u64, Seq<u8>)>, id: u64, enc: Seq<u8>, jv: JobV)
    requires
        spec_find(new_t, id) == Some(enc),
        forall|k2: u64| k2 != id ==> spec_find(new_t, k2) == spec_find(old_t, k2),
        spec_decode_job(enc) == Some(jv),
    ensures
        jobs_of(new_t) == jobs_of(old_t).insert(id, jv),
{
    assert forall|k: u64| #[trigger] spec_contains_key(new_t, k) == (k == id || spec_contains_key(
        old_t,
        k,
    )) by {
        if k == id {
        } else {
            assert(spec_find(new_t, k) == spec_find(old_t, k));
        }
    }
    assert(jobs_of(new_t) =~= jobs_of(old_t).insert(id, jv));
}

proof fn lemma_jobs_of_remove(old_t: Seq<(u64, Seq<u8>)>, new_t: Seq<(u64, Seq<u8>)>, id: u64)
    requires
        spec_find(new_t, id) is None,
        forall|k2: u64| k2 != id ==> spec_find(new_t, k2) == spec_find(old_t, k2),
    ensures
        jobs_of(new_t) == jobs_of(old_t).remove(id),
{
    assert forall|k: u64| #[trigger] spec_contains_key(new_t, k) == (k != id && spec_contains_key(
        old_t,
        k,
    )) by {
        if k == id {
        } else {
            assert(spec_find(new_t, k) == spec_find(old_t, k));
        }
    }
    assert(jobs_of(new_t) =~= jobs_of(old_t).remove(id));
}

/// The counter value reopening a backing memory yields: the stored value
/// when the counter region exists, and zero for a fresh region.
pub open spec fn opened_counter(b: Seq<u8>) -> u64 {
    if spec_page_count(b, COUNTER_REGION as int) > 0 {
        spec_cell_value(b, COUNTER_REGION as int)
    } else {
        0
    }
}

/// The table reopening a backing memory yields: the stored table when the
/// map region exists, and an empty one for a fresh region.
pub open spec fn opened_table(b: Seq<u8>) -> Seq<(u64, Seq<u8>)> {
    if spec_page_count(b, JOBS_REGION as int) > 0 {
        spec_table(b, JOBS_REGION as int)
    } else {
        Seq::empty()
    }
}

/// Exactly the backing memories a store can be opened over: a well-formed
/// header, room to seed whichever of the two regions is still empty, a
/// parseable sorted table, and records that validate against their keys
/// and the counter.
pub open spec fn spec_openable(b: Seq<u8>) -> bool {
    &&& backing_wf(b)
    &&& (spec_page_count(b, COUNTER_REGION as int) == 0 ==> spec_num_pages(b) + 1
        <= MAX_DATA_PAGES as int)
    &&& ({
        let after_cell = if spec_page_count(b, COUNTER_REGION as int) == 0 {
            spec_num_pages(b) + 1
        } else {
            spec_num_pages(b)
        };
        spec_page_count(b, JOBS_REGION as int) == 0 ==> after_cell + 1 <= MAX_DATA_PAGES as int
    })
    &&& (spec_page_count(b, JOBS_REGION as int) > 0 ==> map_wf(b, JOBS_REGION as int))
    &&& entries_ok(opened_table(b), opened_counter(b))
}

/// The durable job registry: an id counter in one region and the encoded
/// records, sorted by id, in another, over one backing memory.
pub struct JobStore {
    mgr: RegionManager,
    counter_cell: StableCell,
    jobs_map: StableMap,
}

impl JobStore {
    /// The raw bytes of the backing memory; the whole state of the store
    /// is a function of them.
    pub closed spec fn backing(&self) -> Seq<u8> {
        self.mgr.backing()
    }

    pub closed spec fn handles_ok(&self) -> bool {
        &&& self.counter_cell.region_id() == COUNTER_REGION as int
        &&& self.jobs_map.region_id() == JOBS_REGION as int
        &&& self.counter_cell.wf()
        &&& self.jobs_map.wf()
    }

    pub open spec fn wf(&self) -> bool {
        &&& self.handles_ok()
        &&& backing_wf(self.backing())
        &&& spec_cell_ready(self.backing(), COUNTER_REGION as int)
        &&& map_wf(self.backing(), JOBS_REGION as int)
        &&& entries_ok(self.table(), self.counter())
    }

    /// The next id to be issued.
    pub open spec fn counter(&self) -> u64 {
        spec_cell_value(self.backing(), COUNTER_REGION as int)
    }

    /// The stored table: (id, encoded record), ascending by id.
    pub open spec fn table(&self) -> Seq<(u64, Seq<u8>)> {
        spec_table(self.backing(), JOBS_REGION as int)
    }

    /// The live records, by id.
    pub open spec fn jobs(&self) -> Map<u64, JobV> {
        jobs_of(self.table())
    }

    /// A fresh, empty store over a fresh backing memory.
    pub fn new() -> (res: Self)
        ensures
            res.wf(),
            res.counter() == 0,
            res.table() == Seq::<(u64, Seq<u8>)>::empty(),
            res.jobs() == Map::<u64, JobV>::empty(),
    {
        let mut mgr = RegionManager::new();
        let h0 = match get_region(COUNTER_REGION) {
            Ok(h) => h,
            Err(_) => {
                proof {
                    assert(false);
                }
                vstd::pervasive::unreached()
            },
        };
        let h1 = match get_region(JOBS_REGION) {
            Ok(h) => h,
            Err(_) => {
                proof {
                    assert(false);
                }
                vstd::pervasive::unreached()
            },
        };
        proof {
            assert(mgr.num_pages() == 0);
            assert(mgr.page_count(h0.id_spec()) == 0);
        }
        let counter_cell = match StableCell::init(&mut mgr, h0, 0) {
            Ok((c, _)) => c,
            Err(_) => {
                proof {
                    assert(false);
                }
                vstd::pervasive::unreached()
            },
        };
        let ghost m1 = mgr;
        let jobs_map = match StableMap::init(&mut mgr, h1) {
            Ok(m) => m,
            Err(_) => {
                proof {
                    assert(false);
                }
                vstd::pervasive::unreached()
            },
        };
        proof {
            Self::bridge_counter(&mgr, &m1);
        }
        let store = JobStore { mgr, counter_cell, jobs_map };
        proof {
            assert(store.jobs() =~= Map::<u64, JobV>::empty());
        }
        store
    }

    /// Restates that an untouched counter region keeps its value and
    /// readiness across an operation on another region.
    proof fn bridge_counter(m1: &RegionManager, m2: &RegionManager)
        requires
            m1.region_view(COUNTER_REGION as int) == m2.region_view(COUNTER_REGION as int),
            m1.page_count(COUNTER_REGION as int) == m2.page_count(COUNTER_REGION as int),
        ensures
            spec_cell_value(m1.backing(), COUNTER_REGION as int) == spec_cell_value(
                m2.backing(),
                COUNTER_REGION as int,
            ),
            spec_cell_ready(m1.backing(), COUNTER_REGION as int) == spec_cell_ready(
                m2.backing(),
                COUNTER_REGION as int,
            ),
    {
    }

    /// Restates that an untouched map region keeps its table across an
    /// operation on another region.
    proof fn bridge_table(m1: &RegionManager, m2: &RegionManager)
        requires
            m1.region_view(JOBS_REGION as int) == m2.region_view(JOBS_REGION as int),
        ensures
            spec_table(m1.backing(), JOBS_REGION as int) == spec_table(
                m2.backing(),
                JOBS_REGION as int,
            ),
            map_wf(m1.backing(), JOBS_REGION as int) == map_wf(m2.backing(), JOBS_REGION as int),
    {
    }

    /// Surrenders the backing memory, e.g. to persist or reopen it.
    pub fn into_backing(self) -> (res: Vec<u8>)
        ensures
            res@ == self.backing(),
    {
        self.mgr.into_backing()
    }

    /// Rebinds a store to an existing backing memory, reconstructing the
    /// counter and every stored record, and validating all of it.
    #[verifier::rlimit(100)]
    #[verifier::loop_isolation(false)]
    pub fn open(mem: Vec<u8>) -> (res: Result<Self, Error>)
        ensures
            res is Ok <==> spec_openable(mem@),
            res matches Ok(s) ==> {
                &&& s.wf()
                &&& s.counter() == opened_counter(mem@)
                &&& s.table() == opened_table(mem@)
            },
            res matches Err(e) ==> (e == Error::CorruptEncoding || e == Error::Exhausted),
    {
        let mut mgr = match RegionManager::open(mem) {
            Ok(m) => m,
            Err(e) => {
                return Err(e);
            },
        };
        let h0 = match get_region(COUNTER_REGION) {
            Ok(h) => h,
            Err(_) => {
                proof {
                    assert(false);
                }
                vstd::pervasive::unreached()
            },
        };
        let h1 = match get_region(JOBS_REGION) {
            Ok(h) => h,
            Err(_) => {
                proof {
                    assert(false);
                }
                vstd::pervasive::unreached()
            },
        };
        let ghost m0 = mgr;
        let (counter_cell, counter_value) = match StableCell::init(&mut mgr, h0, 0) {
            Ok(pair) => pair,
            Err(e) => {
                return Err(e);
            },
        };
        proof {
            Self::bridge_table(&mgr, &m0);
            assert(counter_value == opened_counter(mem@));
        }
        let ghost m1 = mgr;
        let jobs_map = match StableMap::init(&mut mgr, h1) {
            Ok(m) => m,
            Err(e) => {
                proof {
                    assert(m1.page_count(JOBS_REGION as int) == spec_page_count(
                        mem@,
                        JOBS_REGION as int,
                    ));
                    assert(!spec_openable(mem@));
                }
                return Err(e);
            },
        };
        proof {
            Self::bridge_counter(&mgr, &m1);
            assert(spec_table(mgr.backing(), JOBS_REGION as int) == opened_table(mem@));
        }
        // Validate every stored record against its key and the counter.
        let entries = jobs_map.load(&mgr);
        let n = entries.len();
        let ghost tv = spec_table(mgr.backing(), JOBS_REGION as int);
        let mut i: usize = 0;
        while i < n
            invariant
                i <= n,
                n == entries@.len(),
                crate::storage::entries_view(entries@) == tv,
                forall|q: int|
                    0 <= q < i ==> {
                        &&& spec_decode_job((#[trigger] tv[q]).1) is Some
                        &&& job_of_bytes(tv[q].1).id == tv[q].0
                        &&& tv[q].0 < counter_value
                    },
            decreases n - i,
        {
            let decoded = match Job::from_bytes(&entries[i].value) {
                Ok(j) => j,
                Err(_) => {
                    proof {
                        assert(tv[i as int] == (entries@[i as int].key, entries@[i as int].value@));
                        assert(!entries_ok(opened_table(mem@), opened_counter(mem@)));
                    }
                    return Err(Error::CorruptEncoding);
                },
            };
            if decoded.id != entries[i].key || entries[i].key >= counter_value {
                proof {
                    assert(tv[i as int] == (entries@[i as int].key, entries@[i as int].value@));
                    assert(!entries_ok(opened_table(mem@), opened_counter(mem@)));
                }
                return Err(Error::CorruptEncoding);
            }
            proof {
                assert(tv[i as int] == (entries@[i as int].key, entries@[i as int].value@));
            }
            i = i + 1;
        }
        proof {
            assert(entries_ok(opened_table(mem@), opened_counter(mem@)));
            assert(spec_openable(mem@));
        }
        Ok(JobStore { mgr, counter_cell, jobs_map })
    }

    /// Looks the record for `id` up, or nothing if the id has no record.
    pub fn _get_job(&self, id: u64) -> (res: Option<Job>)
        requires
            self.wf(),
        ensures
            res is Some <==> self.jobs().dom().contains(id),
            res matches Some(j) ==> j@ == self.jobs()[id],
    {
        match self.jobs_map.get(&self.mgr, id) {
            Option::Some(bytes) => {
                proof {
                    let tv = self.table();
                    let j = key_index(tv, id);
                    assert(tv[j].0 == id && spec_decode_job(tv[j].1) is Some);
                }
                match Job::from_bytes(&bytes) {
                    Ok(j) => Some(j),
                    Err(_) => {
                        proof {
                            assert(false);
                        }
                        None
                    },
                }
            },
            Option::None => None,
        }
    }

    /// Reads the record for `id`, or reports `NotFound`.
    pub fn get_job(&self, id: u64) -> (res: Result<Job, Error>)
        requires
            self.wf(),
        ensures
            res is Ok <==> self.jobs().dom().contains(id),
            res matches Ok(j) ==> j@ == self.jobs()[id],
            res matches Err(e) ==> e == (Error::NotFound { id }),
    {
        match self._get_job(id) {
            Option::Some(job) => Ok(job),
            Option::None => Err(Error::NotFound { id }),
        }
    }

    /// Encodes `job` (enforcing the size bound) and stores it under its
    /// own id, durably, overwriting any prior record with that id. The id
    /// must already have been issued: the registry never stores a record
    /// at or above the counter.
    #[verifier::rlimit(100)]
    pub fn do_insert(&mut self, job: &Job) -> (res: Result<(), Error>)
        requires
            old(self).wf(),
            job@.id < old(self).counter(),
        ensures
            final(self).wf(),
            res is Ok <==> spec_encode_job(job@).len() <= JOB_MAX_ENCODED_SIZE && save_fits(
                old(self).backing(),
                JOBS_REGION as int,
                spec_store(old(self).table(), job@.id, spec_encode_job(job@)),
            ),
            res matches Err(e) ==> (e == Error::SizeExceeded || e == Error::Exhausted)
                && *final(self) == *old(self),
            res matches Err(e) ==> (e == Error::SizeExceeded <==> spec_encode_job(job@).len()
                > JOB_MAX_ENCODED_SIZE),
            res is Ok ==> {
                &&& final(self).jobs() == old(self).jobs().insert(job@.id, job@)
                &&& final(self).counter() == old(self).counter()
                &&& final(self).table() == spec_store(
                    old(self).table(),
                    job@.id,
                    spec_encode_job(job@),
                )
            },
    {
        let bytes = match job.to_bytes_checked() {
            Ok(b) => b,
            Err(e) => {
                return Err(e);
            },
        };
        let ghost tv = old(self).table();
        let ghost enc = spec_encode_job(job@);
        match self.jobs_map.insert(&mut self.mgr, job.id, bytes) {
            Ok(_) => (),
            Err(e) => {
                return Err(e);
            },
        }
        proof {
            Self::bridge_counter(&self.mgr, &old(self).mgr);
            lemma_store_props(tv, job@.id, enc);
            lemma_job_round_trip(job@);
            let new = spec_store(tv, job@.id, enc);
            assert(self.counter() == old(self).counter());
            assert forall|i: int|
                0 <= i < new.len() implies {
                &&& spec_decode_job((#[trigger] new[i]).1) is Some
                &&& job_of_bytes(new[i].1).id == new[i].0
                &&& new[i].0 < self.counter()
            } by {
                if new[i] == (job@.id, enc) {
                } else {
                    let j = key_index(tv, new[i].0);
                    assert(tv[j].0 == new[i].0 && tv[j].1 == new[i].1);
                }
            }
            lemma_jobs_of_insert(tv, new, job@.id, enc, job@);
        }
        Ok(())
    }

    /// Creates a record from `payload`, stamping it with a fresh id and
    /// the creation time `now`, and stores it durably. On any failure the
    /// store is unchanged: no id is consumed and nothing is written.
    #[verifier::rlimit(100)]
    pub fn add_job(&mut self, payload: JobPayload, now: u64) -> (res: Result<Job, Error>)
        requires
            old(self).wf(),
            old(self).counter() < u64::MAX,
        ensures
            final(self).wf(),
            ({
                let cand = JobV {
                    id: old(self).counter(),
                    title: payload@.title,
                    description: payload@.description,
                    skills_required: payload@.skills_required,
                    created_at: now,
                };
                &&& res is Ok <==> spec_encode_job(cand).len() <= JOB_MAX_ENCODED_SIZE
                    && save_fits(
                    old(self).backing(),
                    JOBS_REGION as int,
                    spec_store(old(self).table(), cand.id, spec_encode_job(cand)),
                )
                &&& res matches Err(e) ==> (e == Error::SizeExceeded || e == Error::Exhausted)
                    && *final(self) == *old(self)
                &&& res matches Err(e) ==> (e == Error::SizeExceeded <==> spec_encode_job(
                    cand,
                ).len() > JOB_MAX_ENCODED_SIZE)
                &&& res matches Ok(j) ==> {
                    &&& j@ == cand
                    &&& create_step(old(self).counter(), final(self).counter(), j@.id)
                    &&& final(self).jobs() == old(self).jobs().insert(j@.id, cand)
                    &&& !old(self).jobs().dom().contains(j@.id)
                }
            }),
    {
        let id = self.counter_cell.get(&self.mgr);
        let job = Job {
            id,
            title: payload.title,
            description: payload.description,
            skills_required: payload.skills_required,
            created_at: now,
        };
        let bytes = match job.to_bytes_checked() {
            Ok(b) => b,
            Err(e) => {
                return Err(e);
            },
        };
        let ghost tv = old(self).table();
        let ghost enc = spec_encode_job(job@);
        proof {
            if spec_contains_key(tv, id) {
                let j = key_index(tv, id);
                assert(tv[j].0 < old(self).counter());
            }
        }
        match self.jobs_map.insert(&mut self.mgr, id, bytes) {
            Ok(_) => (),
            Err(e) => {
                return Err(e);
            },
        }
        proof {
            Self::bridge_counter(&self.mgr, &old(self).mgr);
        }
        let ghost m_mid = self.mgr;
        self.counter_cell.set(&mut self.mgr, id + 1);
        proof {
            Self::bridge_table(&self.mgr, &m_mid);
            lemma_store_props(tv, id, enc);
            lemma_job_round_trip(job@);
            let new = spec_store(tv, id, enc);
            assert(self.table() == new);
            assert(self.counter() == id + 1);
            assert forall|i: int|
                0 <= i < new.len() implies {
                &&& spec_decode_job((#[trigger] new[i]).1) is Some
                &&& job_of_bytes(new[i].1).id == new[i].0
                &&& new[i].0 < self.counter()
            } by {
                if new[i] == (id, enc) {
                } else {
                    let j = key_index(tv, new[i].0);
                    assert(tv[j].0 == new[i].0 && tv[j].1 == new[i].1);
                }
            }
            lemma_jobs_of_insert(tv, new, id, enc, job@);
        }
        Ok(job)
    }

    /// Replaces the caller-supplied fields of the record for `id`, keeping
    /// its id and creation time, and stores it durably. Fails with
    /// `NotFound` when no record has that id; on any failure the store is
    /// unchanged.
    #[verifier::rlimit(100)]
    pub fn update_job(&mut self, id: u64, payload: JobPayload) -> (res: Result<Job, Error>)
        requires
            old(self).wf(),
        ensures
            final(self).wf(),
            !old(self).jobs().dom().contains(id) ==> (res matches Err(e) && e == (Error::NotFound {
                id,
            }) && *final(self) == *old(self)),
            old(self).jobs().dom().contains(id) ==> ({
                let cand = JobV {
                    id,
                    title: payload@.title,
                    description: payload@.description,
                    skills_required: payload@.skills_required,
                    created_at: old(self).jobs()[id].created_at,
                };
                &&& res is Ok <==> spec_encode_job(cand).len() <= JOB_MAX_ENCODED_SIZE
                    && save_fits(
                    old(self).backing(),
                    JOBS_REGION as int,
                    spec_store(old(self).table(), id, spec_encode_job(cand)),
                )
                &&& res matches Err(e) ==> (e == Error::SizeExceeded || e == Error::Exhausted)
                    && *final(self) == *old(self)
                &&& res matches Err(e) ==> (e == Error::SizeExceeded <==> spec_encode_job(
                    cand,
                ).len() > JOB_MAX_ENCODED_SIZE)
                &&& res matches Ok(j) ==> {
                    &&& j@ == cand
                    &&& final(self).jobs() == old(self).jobs().insert(id, cand)
                    &&& final(self).counter() == old(self).counter()
                }
            }),
    {
        let existing = match self._get_job(id) {
            Option::Some(j) => j,
            Option::None => {
                return Err(Error::NotFound { id });
            },
        };
        let job = Job {
            id,
            title: payload.title,
            description: payload.description,
            skills_required: payload.skills_required,
            created_at: existing.created_at,
        };
        let bytes = match job.to_bytes_checked() {
            Ok(b) => b,
            Err(e) => {
                return Err(e);
            },
        };
        let ghost tv = old(self).table();
        let ghost enc = spec_encode_job(job@);
        match self.jobs_map.insert(&mut self.mgr, id, bytes) {
            Ok(_) => (),
            Err(e) => {
                return Err(e);
            },
        }
        proof {
            Self::bridge_counter(&self.mgr, &old(self).mgr);
            lemma_store_props(tv, id, enc);
            lemma_job_round_trip(job@);
            let new = spec_store(tv, id, enc);
            assert(self.counter() == old(self).counter());
            if spec_contains_key(tv, id) {
                let j = key_index(tv, id);
                assert(tv[j].0 < old(self).counter());
            }
            assert forall|i: int|
                0 <= i < new.len() implies {
                &&& spec_decode_job((#[trigger] new[i]).1) is Some
                &&& job_of_bytes(new[i].1).id == new[i].0
                &&& new[i].0 < self.counter()
            } by {
                if new[i] == (id, enc) {
                } else {
                    let j = key_index(tv, new[i].0);
                    assert(tv[j].0 == new[i].0 && tv[j].1 == new[i].1);
                }
            }
            lemma_jobs_of_insert(tv, new, id, enc, job@);
        }
        Ok(job)
    }

    /// Deletes the record for `id` and returns it. Fails with `NotFound`
    /// when no record has that id; on any failure the store is unchanged.
    #[verifier::rlimit(100)]
    pub fn delete_job(&mut self, id: u64) -> (res: Result<Job, Error>)
        requires
            old(self).wf(),
        ensures
            final(self).wf(),
            !old(self).jobs().dom().contains(id) ==> (res matches Err(e) && e == (Error::NotFound {
                id,
            }) && *final(self) == *old(self)),
            old(self).jobs().dom().contains(id) ==> {
                &&& res is Ok <==> save_fits(
                    old(self).backing(),
                    JOBS_REGION as int,
                    spec_erase(old(self).table(), id),
                )
                &&& res matches Err(e) ==> e == Error::Exhausted && *final(self) == *old(self)
                &&& res matches Ok(j) ==> {
                    &&& j@ == old(self).jobs()[id]
                    &&& final(self).jobs() == old(self).jobs().remove(id)
                    &&& final(self).counter() == old(self).counter()
                    &&& final(self).table() == spec_erase(old(self).table(), id)
                }
            },
    {
        let existing = match self._get_job(id) {
            Option::Some(j) => j,
            Option::None => {
                return Err(Error::NotFound { id });
            },
        };
        let ghost tv = old(self).table();
        match self.jobs_map.remove(&mut self.mgr, id) {
            Ok(_) => (),
            Err(e) => {
                return Err(e);
            },
        }
        proof {
            Self::bridge_counter(&self.mgr, &old(self).mgr);
            lemma_erase_props(tv, id);
            let new = spec_erase(tv, id);
            assert(self.counter() == old(self).counter());
            assert forall|i: int|
                0 <= i < new.len() implies {
                &&& spec_decode_job((#[trigger] new[i]).1) is Some
                &&& job_of_bytes(new[i].1).id == new[i].0
                &&& new[i].0 < self.counter()
            } by {
                let j = key_index(tv, new[i].0);
                assert(tv[j].0 == new[i].0 && tv[j].1 == new[i].1);
            }
            lemma_jobs_of_remove(tv, new, id);
        }
        Ok(existing)
    }

    /// The ids of all live records, ascending.
    pub fn job_ids(&self) -> (res: Vec<u64>)
        requires
            self.wf(),
        ensures
            res@.len() == self.table().len(),
            forall|i: int| 0 <= i < res@.len() ==> res@[i] == (#[trigger] self.table()[i]).0,
    {
        self.jobs_map.keys(&self.mgr)
    }
}

/// Uniqueness law: along any chain of `create` calls, the returned ids
/// strictly increase, so they are pairwise distinct. `counters` holds the
/// counter before and after each call; `ids` the returned ids.
pub proof fn lemma_create_ids_strictly_increasing(counters: Seq<u64>, ids: Seq<u64>)
    requires
        counters.len() == ids.len() + 1,
        forall|i: int|
            0 <= i < ids.len() ==> create_step(counters[i], counters[i + 1], #[trigger] ids[i]),
    ensures
        forall|i: int, j: int| 0 <= i < j < ids.len() ==> #[trigger] ids[i] < #[trigger] ids[j],
{
    assert forall|i: int, j: int| 0 <= i < j < ids.len() implies ids[i] < ids[j] by {
        lemma_counter_chain(counters, ids, i, j);
    }
}

proof fn lemma_counter_chain(counters: Seq<u64>, ids: Seq<u64>, i: int, j: int)
    requires
        counters.len() == ids.len() + 1,
        forall|q: int|
            0 <= q < ids.len() ==> create_step(counters[q], counters[q + 1], #[trigger] ids[q]),
        0 <= i < j < ids.len(),
    ensures
        ids[i] < ids[j],
    decreases j - i,
{
    if i + 1 == j {
        assert(create_step(counters[i], counters[i + 1], ids[i]));
        assert(create_step(counters[j], counters[j + 1], ids[j]));
    } else {
        lemma_counter_chain(counters, ids, i, j - 1);
        assert(create_step(counters[j - 1], counters[j], ids[j - 1]));
        assert(create_step(counters[j], counters[j + 1], ids[j]));
    }
}

/// Not-found law: an id at or above the counter was never issued, and no
/// record can be stored under it, so `read`/`update`/`delete` on it answer
/// `NotFound`.
pub proof fn lemma_unissued_id_absent(s: &JobStore, id: u64)
    requires
        s.wf(),
        id >= s.counter(),
    ensures
        !s.jobs().dom().contains(id),
{
    if spec_contains_key(s.table(), id) {
        let j = key_index(s.table(), id);
        assert(s.table()[j].0 < s.counter());
    }
}

/// Durability law, reopening side: the backing memory any well-formed
/// store leaves behind can always be reopened, and what `open` yields is
/// exactly the counter and table the store held.
pub proof fn lemma_reopen_succeeds(s: &JobStore)
    requires
        s.wf(),
    ensures
        spec_openable(s.backing()),
        opened_counter(s.backing()) == s.counter(),
        opened_table(s.backing()) == s.table(),
{
    let b = s.backing();
    assert(spec_page_count(b, COUNTER_REGION as int) > 0) by {
        if spec_page_count(b, COUNTER_REGION as int) == 0 {
            assert(crate::region::spec_region_len(b, COUNTER_REGION as int) == 0);
        }
    }
    assert(spec_page_count(b, JOBS_REGION as int) > 0) by {
        if spec_page_count(b, JOBS_REGION as int) == 0 {
            assert(crate::region::spec_region_len(b, JOBS_REGION as int) == 0);
            assert(crate::region::spec_region_view(b, JOBS_REGION as int).len() == 0);
        }
    }
}

/// Durability law: the store's whole state is a function of the backing
/// bytes, so two stores over identical backing memories hold identical
/// counters and records; reopening after any operation reproduces the
/// state the operation left behind.
pub proof fn lemma_state_determined_by_backing(s1: &JobStore, s2: &JobStore)
    requires
        s1.wf(),
        s2.wf(),
        s1.backing() == s2.backing(),
    ensures
        s1.counter() == s2.counter(),
        s1.table() == s2.table(),
        s1.jobs() == s2.jobs(),
{
    assert(s1.jobs() =~= s2.jobs());
}

} // verus!
