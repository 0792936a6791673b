use crate::errors::Error;
use crate::region::{
    spec_region_len, spec_region_view, RegionHandle, RegionManager, MAX_DATA_PAGES, PAGE_SIZE,
};
use vstd::bytes::*;
use vstd::prelude::*;

verus! {

/// Value of the cell bound to region `r`: the region's first eight bytes.
pub open spec fn spec_cell_value(b: Seq<u8>, r: int) -> u64 {
    spec_u64_from_le_bytes(spec_region_view(b, r).subrange(0, 8))
}

/// Whether region `r` can hold a cell: at least one page allocated.
pub open spec fn spec_cell_ready(b: Seq<u8>, r: int) -> bool {
    spec_region_len(b, r) >= 8
}

/// A single durable fixed-width scalar stored at the front of one region.
///
/// Every `set` writes straight to the backing memory, so the value a
/// reopened backing memory yields is always the last one written.
pub struct StableCell {
    region: RegionHandle,
}

impl StableCell {
    pub closed spec fn region_id(&self) -> int {
        self.region.id_spec()
    }

    pub open spec fn wf(&self) -> bool {
        0 <= self.region_id() < crate::region::MAX_REGIONS as int
    }

    /// Binds a cell to `region`. A region that already holds pages keeps
    /// its stored value; a fresh region is grown by one page and seeded
    /// with `initial`.
    pub fn init(mgr: &mut RegionManager, region: RegionHandle, initial: u64) -> (res: Result<
        (StableCell, u64),
        Error,
    >)
        requires
            old(mgr).wf(),
            region.wf(),
        ensures
            final(mgr).wf(),
            res is Err <==> old(mgr).page_count(region.id_spec()) == 0 && old(mgr).num_pages() + 1
                > MAX_DATA_PAGES as int,
            res matches Err(e) ==> e == Error::Exhausted && *final(mgr) == *old(mgr),
            final(mgr).num_pages() <= old(mgr).num_pages() + 1,
            res is Ok ==> final(mgr).num_pages() == (if old(mgr).page_count(region.id_spec())
                == 0 {
                old(mgr).num_pages() + 1
            } else {
                old(mgr).num_pages()
            }),
            res matches Ok(pair) ==> {
                &&& pair.0.wf()
                &&& pair.0.region_id() == region.id_spec()
                &&& spec_cell_ready(final(mgr).backing(), region.id_spec())
                &&& spec_cell_value(final(mgr).backing(), region.id_spec()) == pair.1
                &&& (old(mgr).page_count(region.id_spec()) > 0 ==> *final(mgr) == *old(mgr)
                    && pair.1 == spec_cell_value(old(mgr).backing(), region.id_spec()))
                &&& (old(mgr).page_count(region.id_spec()) == 0 ==> pair.1 == initial)
                &&& forall|r2: int|
                    r2 != region.id_spec() ==> final(mgr).region_view(r2) == old(mgr).region_view(
                        r2,
                    ) && final(mgr).page_count(r2) == old(mgr).page_count(r2)
            },
    {
        let pc = mgr.count_pages(&region);
        if pc == 0 {
            match mgr.grow(&region, 1) {
                Ok(_) => (),
                Err(e) => {
                    return Err(Error::Exhausted);
                },
            }
            proof {
                assert(spec_region_len(mgr.backing(), region.id_spec()) == PAGE_SIZE as int);
            }
            let bytes = u64_to_le_bytes(initial);
            match mgr.write(&region, 0, &bytes) {
                Ok(()) => (),
                Err(_) => {
                    proof {
                        assert(false);
                    }
                },
            }
            proof {
                lemma_auto_spec_u64_to_from_le_bytes();
                assert(spec_region_view(mgr.backing(), region.id_spec()).subrange(0, 8)
                    =~= spec_u64_to_le_bytes(initial));
            }
            let cell = StableCell { region };
            Ok((cell, initial))
        } else {
            let v = match mgr.read(&region, 0, 8) {
                Ok(v) => v,
                Err(_) => {
                    proof {
                        assert(spec_region_len(mgr.backing(), region.id_spec()) >= PAGE_SIZE as int)
                            by (nonlinear_arith)
                            requires
                                mgr.page_count(region.id_spec()) >= 1,
                                spec_region_len(mgr.backing(), region.id_spec()) == mgr.page_count(
                                    region.id_spec(),
                                ) * PAGE_SIZE,
                        ;
                        assert(false);
                    }
                    Vec::new()
                },
            };
            proof {
                assert(spec_region_view(mgr.backing(), region.id_spec()).subrange(0, 8) == v@);
            }
            let value = crate::wire::read_u64_at(&v, 0);
            proof {
                assert(v@.subrange(0, 8) =~= v@);
            }
            let cell = StableCell { region };
            Ok((cell, value))
        }
    }

    /// Reads the current value.
    pub fn get(&self, mgr: &RegionManager) -> (res: u64)
        requires
            mgr.wf(),
            self.wf(),
            spec_cell_ready(mgr.backing(), self.region_id()),
        ensures
            res == spec_cell_value(mgr.backing(), self.region_id()),
    {
        let v = match mgr.read(&self.region, 0, 8) {
            Ok(v) => v,
            Err(_) => {
                proof {
                    assert(false);
                }
                Vec::new()
            },
        };
        let value = crate::wire::read_u64_at(&v, 0);
        proof {
            assert(v@.subrange(0, 8) =~= v@);
        }
        value
    }

    /// Overwrites the value, immediately durable, and returns the prior
    /// value.
    pub fn set(&self, mgr: &mut RegionManager, value: u64) -> (res: u64)
        requires
            old(mgr).wf(),
            self.wf(),
            spec_cell_ready(old(mgr).backing(), self.region_id()),
        ensures
            final(mgr).wf(),
            res == spec_cell_value(old(mgr).backing(), self.region_id()),
            spec_cell_value(final(mgr).backing(), self.region_id()) == value,
            spec_cell_ready(final(mgr).backing(), self.region_id()),
            final(mgr).num_pages() == old(mgr).num_pages(),
            forall|r2: int| final(mgr).page_count(r2) == old(mgr).page_count(r2),
            forall|r2: int|
                r2 != self.region_id() ==> final(mgr).region_view(r2) == old(mgr).region_view(r2),
    {
        let prior = self.get(mgr);
        let bytes = u64_to_le_bytes(value);
        match mgr.write(&self.region, 0, &bytes) {
            Ok(()) => (),
            Err(_) => {
                proof {
                    assert(false);
                }
            },
        }
        proof {
            lemma_auto_spec_u64_to_from_le_bytes();
            assert(spec_region_view(mgr.backing(), self.region_id()).subrange(0, 8)
                =~= spec_u64_to_le_bytes(value));
            assert(mgr.page_count(self.region_id()) == old(mgr).page_count(self.region_id()));
            assert(spec_region_len(mgr.backing(), self.region_id()) == spec_region_len(
                old(mgr).backing(),
                self.region_id(),
            ));
        }
        prior
    }
}

} // verus!
