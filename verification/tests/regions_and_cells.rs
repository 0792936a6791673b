use block_employ::cell::StableCell;
use block_employ::errors::Error;
use block_employ::region::{get_region, RegionManager, MAX_DATA_PAGES, MAX_REGIONS, PAGE_SIZE};
use block_employ::storage::StableMap;

#[test]
fn growing_past_the_backing_memory_is_exhausted() {
    let mut mgr = RegionManager::new();
    let r0 = get_region(0).unwrap();
    assert_eq!(mgr.grow(&r0, MAX_DATA_PAGES + 1).err(), Some(Error::Exhausted));
    assert_eq!(mgr.count_pages(&r0), 0);
    assert_eq!(mgr.grow(&r0, 1).unwrap(), 0);
    assert_eq!(mgr.grow(&r0, MAX_DATA_PAGES).err(), Some(Error::Exhausted));
}

#[test]
fn invalid_region_id_is_rejected() {
    assert!(get_region(MAX_REGIONS).is_err());
    assert!(get_region(255).is_err());
    assert!(get_region(0).is_ok());
    assert!(get_region(MAX_REGIONS - 1).is_ok());
}

#[test]
fn regions_are_independent() {
    let mut mgr = RegionManager::new();
    let r0 = get_region(0).unwrap();
    let r1 = get_region(1).unwrap();

    assert_eq!(mgr.grow(&r0, 1).unwrap(), 0);
    assert_eq!(mgr.grow(&r1, 2).unwrap(), 0);
    assert_eq!(mgr.grow(&r0, 1).unwrap(), 1);
    assert_eq!(mgr.count_pages(&r0), 2);
    assert_eq!(mgr.count_pages(&r1), 2);

    mgr.write(&r0, 10, &vec![1, 2, 3]).unwrap();
    mgr.write(&r1, 10, &vec![9, 8, 7]).unwrap();
    // Writing across the page boundary of a region with scattered pages.
    mgr.write(&r0, PAGE_SIZE - 1, &vec![5, 6]).unwrap();

    assert_eq!(mgr.read(&r0, 10, 3).unwrap(), vec![1, 2, 3]);
    assert_eq!(mgr.read(&r1, 10, 3).unwrap(), vec![9, 8, 7]);
    assert_eq!(mgr.read(&r0, PAGE_SIZE - 1, 2).unwrap(), vec![5, 6]);
    // Fresh pages read as zero.
    assert_eq!(mgr.read(&r1, 0, 4).unwrap(), vec![0, 0, 0, 0]);
}

#[test]
fn out_of_bounds_access_fails() {
    let mut mgr = RegionManager::new();
    let r0 = get_region(0).unwrap();
    assert_eq!(mgr.read(&r0, 0, 1).err(), Some(Error::OutOfBounds));
    mgr.grow(&r0, 1).unwrap();
    assert_eq!(mgr.read(&r0, 0, PAGE_SIZE).unwrap().len(), PAGE_SIZE);
    assert_eq!(
        mgr.read(&r0, 1, PAGE_SIZE).err(),
        Some(Error::OutOfBounds)
    );
    assert_eq!(
        mgr.write(&r0, PAGE_SIZE - 1, &vec![0, 0]).err(),
        Some(Error::OutOfBounds)
    );
}

#[test]
fn region_layout_survives_reopen() {
    let mut mgr = RegionManager::new();
    let r0 = get_region(0).unwrap();
    let r2 = get_region(2).unwrap();
    mgr.grow(&r0, 1).unwrap();
    mgr.grow(&r2, 1).unwrap();
    mgr.write(&r2, 100, &vec![42; 8]).unwrap();

    let bytes = mgr.into_backing();
    let mgr2 = RegionManager::open(bytes).unwrap();
    assert_eq!(mgr2.count_pages(&r0), 1);
    assert_eq!(mgr2.count_pages(&r2), 1);
    assert_eq!(mgr2.read(&r2, 100, 8).unwrap(), vec![42; 8]);
}

#[test]
fn open_rejects_bad_headers() {
    assert!(RegionManager::open(vec![]).is_err());
    assert!(RegionManager::open(vec![0; 17]).is_err());
    // A header declaring one page with no page behind it.
    let mut bytes = vec![0u8; PAGE_SIZE];
    bytes[0] = 1;
    assert_eq!(RegionManager::open(bytes).err(), Some(Error::CorruptEncoding));
}

#[test]
fn cell_value_survives_reopen() {
    let mut mgr = RegionManager::new();
    let r0 = get_region(0).unwrap();
    let (cell, v) = StableCell::init(&mut mgr, r0, 17).unwrap();
    assert_eq!(v, 17);
    assert_eq!(cell.get(&mgr), 17);
    assert_eq!(cell.set(&mut mgr, 99), 17);
    assert_eq!(cell.get(&mgr), 99);

    let bytes = mgr.into_backing();
    let mut mgr2 = RegionManager::open(bytes).unwrap();
    // The initial value is ignored: the stored one wins.
    let (_, v2) = StableCell::init(&mut mgr2, get_region(0).unwrap(), 17).unwrap();
    assert_eq!(v2, 99);
}

#[test]
fn map_orders_keys_and_returns_priors() {
    let mut mgr = RegionManager::new();
    let r1 = get_region(1).unwrap();
    let map = StableMap::init(&mut mgr, r1).unwrap();

    assert_eq!(map.insert(&mut mgr, 30, vec![3]).unwrap(), None);
    assert_eq!(map.insert(&mut mgr, 10, vec![1]).unwrap(), None);
    assert_eq!(map.insert(&mut mgr, 20, vec![2]).unwrap(), None);
    assert_eq!(map.keys(&mgr), vec![10, 20, 30]);

    assert_eq!(map.insert(&mut mgr, 20, vec![9, 9]).unwrap(), Some(vec![2]));
    assert_eq!(map.get(&mgr, 20), Some(vec![9, 9]));
    assert_eq!(map.get(&mgr, 15), None);

    assert_eq!(map.remove(&mut mgr, 10).unwrap(), Some(vec![1]));
    assert_eq!(map.remove(&mut mgr, 10).unwrap(), None);
    assert_eq!(map.keys(&mgr), vec![20, 30]);

    // The table survives a reopen of the same backing bytes.
    let bytes = mgr.into_backing();
    let mut mgr2 = RegionManager::open(bytes).unwrap();
    let map2 = StableMap::init(&mut mgr2, get_region(1).unwrap()).unwrap();
    assert_eq!(map2.keys(&mgr2), vec![20, 30]);
    assert_eq!(map2.get(&mgr2, 20), Some(vec![9, 9]));
    assert_eq!(map2.get(&mgr2, 30), Some(vec![3]));
}

#[test]
fn map_values_spanning_pages() {
    let mut mgr = RegionManager::new();
    let r1 = get_region(1).unwrap();
    let map = StableMap::init(&mut mgr, r1).unwrap();
    // Enough values to force the table past one page.
    for k in 0..8u64 {
        let v = vec![k as u8; 1000];
        assert_eq!(map.insert(&mut mgr, k, v).unwrap(), None);
    }
    for k in 0..8u64 {
        assert_eq!(map.get(&mgr, k), Some(vec![k as u8; 1000]));
    }
}
