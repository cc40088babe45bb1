use buffer_pool::page::{PageID, FRAME_SIZE};
use buffer_pool::scheduler::{DiskManager, Error, Load, PageWrite};

/// The database file, held in memory, with a count of page writes.
struct Disk {
    bytes: Vec<u8>,
    writes: usize,
}

impl Disk {
    fn new() -> Disk {
        Disk { bytes: Vec::new(), writes: 0 }
    }

    fn read(&self, offset: u64) -> Vec<u8> {
        let o = offset as usize;
        self.bytes[o..o + FRAME_SIZE as usize].to_vec()
    }

    fn write(&mut self, w: &PageWrite) {
        let o = w.offset as usize;
        self.bytes[o..o + FRAME_SIZE as usize].copy_from_slice(&w.content);
        self.writes += 1;
    }
}

/// Brings page `p` into the cache, writing out a dirty victim.
fn fetch(dm: &mut DiskManager, disk: &mut Disk, p: PageID) -> Result<(), Error> {
    match dm.load_frame(p) {
        Load::Cached => Ok(()),
        Load::Missing => Err(Error::PageNotFound),
        Load::Fetch(offset) => {
            let content = disk.read(offset);
            if let Some(victim) = dm.install_frame(p, content)? {
                if let Some(w) = dm.flush_frame(&victim) {
                    disk.write(&w);
                }
            }
            Ok(())
        }
    }
}

fn new_page(dm: &mut DiskManager, disk: &mut Disk) -> PageID {
    let np = dm.new_page();
    if np.extend {
        let len = disk.bytes.len();
        disk.bytes.resize(len + FRAME_SIZE as usize, 0);
    }
    fetch(dm, disk, np.page_id).unwrap();
    np.page_id
}

fn read_page(dm: &mut DiskManager, disk: &mut Disk, p: PageID) -> Result<Vec<u8>, Error> {
    fetch(dm, disk, p)?;
    dm.read_page(p)
}

fn write_page(dm: &mut DiskManager, disk: &mut Disk, p: PageID, b: Vec<u8>) -> Result<(), Error> {
    fetch(dm, disk, p)?;
    dm.write_page(p, b)
}

fn flush_page(dm: &mut DiskManager, disk: &mut Disk, p: PageID) {
    if let Some(w) = dm.flush_page(p) {
        disk.write(&w);
        dm.mark_flushed(p);
    }
}

fn sum(b: &[u8]) -> u64 {
    b.iter().map(|v| *v as u64).sum()
}

#[test]
fn test_create_manager() {
    let dm = DiskManager::new(3);
    assert_eq!(dm.get_db_size(), 0);
    assert_eq!(dm.size(), 3);
}

#[test]
fn test_single_page_alloc() {
    let mut dm = DiskManager::new(3);
    let mut disk = Disk::new();
    new_page(&mut dm, &mut disk);
    assert_eq!(dm.get_db_size(), FRAME_SIZE);
    assert_eq!(disk.bytes.len() as u64, FRAME_SIZE);
}

#[test]
fn test_multiple_page_alloc() {
    let mut dm = DiskManager::new(3);
    let mut disk = Disk::new();
    for _ in 0..4 {
        new_page(&mut dm, &mut disk);
    }
    assert_eq!(dm.get_db_size(), FRAME_SIZE * 4);
    let frame_content = read_page(&mut dm, &mut disk, 2).unwrap();
    assert_eq!(frame_content.len(), FRAME_SIZE as usize);
    let _ = read_page(&mut dm, &mut disk, 1).unwrap();
    assert_eq!(dm.cached_pages(), vec![1, 2, 4]);
}

#[test]
fn test_delete_pages() {
    let mut dm = DiskManager::new(3);
    let mut disk = Disk::new();
    new_page(&mut dm, &mut disk);
    new_page(&mut dm, &mut disk);
    assert!(dm.delete_page(3).is_err());
    assert!(dm.delete_page(2).is_ok());
    assert_eq!(dm.get_db_size(), FRAME_SIZE * 2);
    new_page(&mut dm, &mut disk);
    assert_eq!(dm.get_db_size(), FRAME_SIZE * 2);
}

#[test]
fn test_single_page_write() {
    let mut dm = DiskManager::new(3);
    let mut disk = Disk::new();
    new_page(&mut dm, &mut disk);
    new_page(&mut dm, &mut disk);
    let res = write_page(&mut dm, &mut disk, 3, vec![1; FRAME_SIZE as usize]);
    assert!(res.is_err());
    let res = write_page(&mut dm, &mut disk, 1, vec![1; FRAME_SIZE as usize]);
    assert!(res.is_ok());
    let frame = read_page(&mut dm, &mut disk, 1).unwrap();
    assert_eq!(sum(&frame), FRAME_SIZE);
}

#[test]
fn test_single_page_flush() {
    let mut dm = DiskManager::new(1);
    let mut disk = Disk::new();
    new_page(&mut dm, &mut disk);
    let res = write_page(&mut dm, &mut disk, 1, vec![1; FRAME_SIZE as usize]);
    assert!(res.is_ok());
    new_page(&mut dm, &mut disk);
    assert!(dm.cache().get_frame(2).is_some());
    let read = read_page(&mut dm, &mut disk, 1).unwrap();
    assert_eq!(sum(&read), FRAME_SIZE);
}

#[test]
fn fresh_allocation_grows_file() {
    let mut dm = DiskManager::new(3);
    let mut disk = Disk::new();
    let ids: Vec<PageID> = (0..4).map(|_| new_page(&mut dm, &mut disk)).collect();
    assert_eq!(ids, vec![1, 2, 3, 4]);
    assert_eq!(dm.get_db_size(), 16384);
    assert_eq!(disk.bytes.len(), 16384);
    assert_eq!(dm.cached_pages(), vec![4, 3, 2]);
}

#[test]
fn read_your_write_across_eviction() {
    let mut dm = DiskManager::new(1);
    let mut disk = Disk::new();
    let p1 = new_page(&mut dm, &mut disk);
    write_page(&mut dm, &mut disk, p1, vec![1; 4096]).unwrap();
    assert_eq!(disk.writes, 0);
    let p2 = new_page(&mut dm, &mut disk);
    assert_eq!(p2, 2);
    assert_eq!(disk.writes, 1);
    let b = read_page(&mut dm, &mut disk, p1).unwrap();
    assert_eq!(b.len(), 4096);
    assert!(b.iter().all(|v| *v == 1));
    assert_eq!(sum(&b), 4096);
}

#[test]
fn delete_then_reallocate_reuses_offset() {
    let mut dm = DiskManager::new(3);
    let mut disk = Disk::new();
    assert_eq!(new_page(&mut dm, &mut disk), 1);
    assert_eq!(new_page(&mut dm, &mut disk), 2);
    assert_eq!(dm.query_page(1), Some(0));
    assert_eq!(dm.query_page(2), Some(4096));
    assert_eq!(dm.delete_page(2), Ok(()));
    assert_eq!(dm.get_db_size(), 8192);
    let np = dm.new_page();
    assert_eq!(np.page_id, 3);
    assert_eq!(np.offset, 4096);
    assert!(!np.extend);
    assert_eq!(dm.get_db_size(), 8192);
}

#[test]
fn unknown_id_errors() {
    let mut dm = DiskManager::new(3);
    let mut disk = Disk::new();
    new_page(&mut dm, &mut disk);
    new_page(&mut dm, &mut disk);
    assert_eq!(dm.delete_page(9999), Err(Error::PageNotFound));
    assert_eq!(
        write_page(&mut dm, &mut disk, 9999, vec![0; 4096]),
        Err(Error::PageNotFound)
    );
    assert_eq!(dm.write_page(9999, vec![0; 4096]), Err(Error::PageNotFound));
    assert_eq!(dm.read_page(9999), Err(Error::PageNotFound));
    assert_eq!(dm.load_frame(9999), Load::Missing);
}

#[test]
fn lru_touch_moves_to_head() {
    let mut dm = DiskManager::new(3);
    let mut disk = Disk::new();
    for _ in 0..3 {
        new_page(&mut dm, &mut disk);
    }
    assert_eq!(dm.cached_pages(), vec![3, 2, 1]);
    read_page(&mut dm, &mut disk, 1).unwrap();
    assert_eq!(dm.cached_pages(), vec![1, 3, 2]);
    new_page(&mut dm, &mut disk);
    assert_eq!(dm.cached_pages(), vec![4, 1, 3]);
    assert!(dm.cache().get_frame(2).is_none());
    assert!(dm.cache().get_frame(1).is_some());
}

#[test]
fn flush_clears_dirty() {
    let mut dm = DiskManager::new(3);
    let mut disk = Disk::new();
    let p = new_page(&mut dm, &mut disk);
    write_page(&mut dm, &mut disk, p, vec![7; 4096]).unwrap();
    assert!(dm.cache().get_frame(p).unwrap().dirty);
    flush_page(&mut dm, &mut disk, p);
    assert!(!dm.cache().get_frame(p).unwrap().dirty);
    assert_eq!(disk.writes, 1);
    flush_page(&mut dm, &mut disk, p);
    assert_eq!(disk.writes, 1);
    assert!(dm.flush_page(p).is_none());
    assert_eq!(disk.read(0), vec![7; 4096]);
}

#[test]
fn write_flush_read_round_trip_after_reload() {
    let mut dm = DiskManager::new(2);
    let mut disk = Disk::new();
    let p = new_page(&mut dm, &mut disk);
    let mut b = vec![0u8; 4096];
    for (i, v) in b.iter_mut().enumerate() {
        *v = (i % 251) as u8;
    }
    write_page(&mut dm, &mut disk, p, b.clone()).unwrap();
    flush_page(&mut dm, &mut disk, p);
    assert_eq!(read_page(&mut dm, &mut disk, p).unwrap(), b);
    new_page(&mut dm, &mut disk);
    new_page(&mut dm, &mut disk);
    assert!(dm.cache().get_frame(p).is_none());
    assert_eq!(disk.writes, 1);
    assert_eq!(read_page(&mut dm, &mut disk, p).unwrap(), b);
}

#[test]
fn flush_of_uncached_page_is_a_no_op() {
    let mut dm = DiskManager::new(1);
    let mut disk = Disk::new();
    let p1 = new_page(&mut dm, &mut disk);
    new_page(&mut dm, &mut disk);
    assert!(dm.flush_page(p1).is_none());
    assert!(!dm.mark_flushed(p1));
}

#[test]
fn new_then_delete_restores_live_set() {
    let mut dm = DiskManager::new(2);
    let mut disk = Disk::new();
    new_page(&mut dm, &mut disk);
    let before = dm.cached_pages();
    let np = dm.new_page();
    let len = dm.get_db_size();
    assert_eq!(dm.delete_page(np.page_id), Ok(()));
    assert_eq!(dm.query_page(np.page_id), None);
    assert_eq!(dm.query_page(1), Some(0));
    assert_eq!(dm.get_db_size(), len);
    assert_eq!(dm.cached_pages(), before);
    let again = dm.new_page();
    assert_eq!(again.offset, np.offset);
    assert!(again.page_id > np.page_id);
}

#[test]
fn single_frame_touches_evict_all_but_last() {
    let n = 6;
    let mut dm = DiskManager::new(1);
    let mut disk = Disk::new();
    let ids: Vec<PageID> = (0..n).map(|_| dm.new_page().page_id).collect();
    disk.bytes.resize(n * 4096, 0);
    let mut evictions = 0;
    let mut flushes = 0;
    for p in &ids {
        match dm.load_frame(*p) {
            Load::Fetch(offset) => {
                if let Some(victim) = dm.install_frame(*p, disk.read(offset)).unwrap() {
                    evictions += 1;
                    if let Some(w) = dm.flush_frame(&victim) {
                        disk.write(&w);
                        flushes += 1;
                    }
                }
            }
            _ => panic!("page should be fetched"),
        }
        dm.write_page(*p, vec![*p as u8; 4096]).unwrap();
    }
    assert_eq!(evictions, n - 1);
    assert_eq!(flushes, n - 1);
    assert_eq!(disk.writes, n - 1);
    assert_eq!(dm.cached_pages(), vec![n as PageID]);
}

#[test]
fn deleting_only_cached_page_empties_cache() {
    let mut dm = DiskManager::new(1);
    let mut disk = Disk::new();
    let p = new_page(&mut dm, &mut disk);
    assert_eq!(dm.cached_pages(), vec![p]);
    dm.delete_page(p).unwrap();
    assert!(dm.cached_pages().is_empty());
    assert_eq!(dm.get_db_size(), 4096);
    assert_eq!(dm.cache().len(), 0);
}

#[test]
fn pinned_frames_are_not_evicted() {
    let mut dm = DiskManager::new(2);
    let mut disk = Disk::new();
    let p1 = new_page(&mut dm, &mut disk);
    let p2 = new_page(&mut dm, &mut disk);
    assert!(dm.pin_page(p1));
    new_page(&mut dm, &mut disk);
    assert!(dm.cache().get_frame(p1).is_some());
    assert!(dm.cache().get_frame(p2).is_none());
    assert!(dm.pin_page(3));
    let np = dm.new_page();
    let res = dm.install_frame(np.page_id, vec![0; 4096]);
    assert!(matches!(res, Err(Error::NoEvictableFrame)));
    assert_eq!(dm.cached_pages(), vec![3, 1]);
    assert!(dm.unpin_page(p1));
    assert!(!dm.unpin_page(p1));
    let res = dm.install_frame(np.page_id, vec![0; 4096]).unwrap();
    assert_eq!(res.unwrap().page_id, p1);
}

#[test]
fn cached_page_install_keeps_frame() {
    let mut dm = DiskManager::new(2);
    let mut disk = Disk::new();
    let p = new_page(&mut dm, &mut disk);
    dm.write_page(p, vec![3; 4096]).unwrap();
    assert!(dm.install_frame(p, vec![0; 4096]).unwrap().is_none());
    assert_eq!(dm.read_page(p).unwrap(), vec![3; 4096]);
    assert!(matches!(dm.install_frame(42, vec![0; 4096]), Err(Error::PageNotFound)));
}

#[test]
fn live_page_not_cached_is_not_resident() {
    let mut dm = DiskManager::new(1);
    let mut disk = Disk::new();
    let p1 = new_page(&mut dm, &mut disk);
    new_page(&mut dm, &mut disk);
    assert_eq!(dm.read_page(p1), Err(Error::NotResident));
    assert_eq!(dm.write_page(p1, vec![0; 4096]), Err(Error::NotResident));
    assert_eq!(dm.load_frame(p1), Load::Fetch(0));
}

#[test]
fn undo_install_puts_victim_back() {
    let mut dm = DiskManager::new(1);
    let mut disk = Disk::new();
    let p1 = new_page(&mut dm, &mut disk);
    dm.write_page(p1, vec![4; 4096]).unwrap();
    assert!(dm.will_extend());
    let np = dm.new_page();
    disk.bytes.resize(8192, 0);
    assert!(np.extend);
    let victim = dm.install_frame(np.page_id, disk.read(np.offset)).unwrap().unwrap();
    assert_eq!(victim.page_id, p1);
    assert!(dm.undo_install(np.page_id, victim));
    assert_eq!(dm.cached_pages(), vec![p1]);
    let f = dm.cache().get_frame(p1).unwrap();
    assert!(f.dirty);
    assert_eq!(f.content, vec![4; 4096]);
    let other = buffer_pool::page::Frame::new(np.page_id, 0, vec![0; 4096]);
    assert!(!dm.undo_install(p1, other));
    assert_eq!(dm.cached_pages(), vec![p1]);
}

#[test]
fn file_length_stays_page_aligned() {
    let mut dm = DiskManager::new(2);
    let mut disk = Disk::new();
    for i in 0..10u32 {
        let p = new_page(&mut dm, &mut disk);
        if i % 3 == 0 {
            dm.delete_page(p).unwrap();
        }
        assert_eq!(dm.get_db_size() % 4096, 0);
        assert!(dm.cache().len() <= 2);
    }
    assert_eq!(dm.get_db_size() as usize, disk.bytes.len());
}
