use buffer_pool::cache::{Cache, CacheEntry, CacheError};
use buffer_pool::directory::{Error as DirectoryError, PageDirector};
use buffer_pool::page::Frame;

#[test]
fn directory_first_page_is_one_at_zero() {
    let mut d = PageDirector::new();
    assert!(d.empty());
    assert!(!d.can_accomodate());
    assert_eq!(d.register_new_page(), (1, 0));
    assert_eq!(d.register_new_page(), (2, 4096));
    assert_eq!(d.current_mapsize(), 2);
    assert_eq!(d.file_length(), 8192);
    assert_eq!(d.query_page(2), Some(4096));
    assert_eq!(d.query_page(7), None);
}

#[test]
fn directory_free_list_is_lifo() {
    let mut d = PageDirector::default();
    for _ in 0..4 {
        d.register_new_page();
    }
    assert_eq!(d.remove_page(2), Ok(()));
    assert_eq!(d.remove_page(4), Ok(()));
    assert!(d.can_accomodate());
    assert!(!d.empty());
    assert_eq!(d.current_mapsize(), 4);
    assert_eq!(d.register_new_page(), (5, 12288));
    assert_eq!(d.register_new_page(), (6, 4096));
    assert_eq!(d.register_new_page(), (7, 16384));
    assert_eq!(d.file_length(), 20480);
}

#[test]
fn directory_remove_unknown_page_fails() {
    let mut d = PageDirector::new();
    d.register_new_page();
    assert_eq!(d.remove_page(9), Err(DirectoryError::DeleteFromDirectoryError));
    assert_eq!(d.remove_page(1), Ok(()));
    assert_eq!(d.remove_page(1), Err(DirectoryError::DeleteFromDirectoryError));
    assert_eq!(d.query_page(1), None);
}

#[test]
fn cache_put_evicts_tail() {
    let mut c = Cache::new(2);
    assert!(c.put_frame(1, 0, vec![1; 4096]).unwrap().is_none());
    assert!(c.put_frame(2, 4096, vec![2; 4096]).unwrap().is_none());
    let v = c.put_frame(3, 8192, vec![3; 4096]).unwrap().unwrap();
    assert_eq!(v.page_id, 1);
    assert_eq!(v.offset, 0);
    assert_eq!(v.content, vec![1; 4096]);
    assert_eq!(c.page_ids(), vec![3, 2]);
    assert_eq!(c.len(), 2);
    assert_eq!(c.max_frames(), 2);
}

#[test]
fn cache_lookup_moves_to_head() {
    let mut c = Cache::new(3);
    for p in 1..=3u32 {
        c.put_frame(p, (p as u64 - 1) * 4096, vec![p as u8; 4096]).unwrap();
    }
    assert_eq!(c.page_ids(), vec![3, 2, 1]);
    let f = c.lookup_frame(2).unwrap();
    assert_eq!(f.page_id, 2);
    assert_eq!(f.content, vec![2; 4096]);
    assert_eq!(c.page_ids(), vec![2, 3, 1]);
    c.lookup_frame(1).unwrap();
    assert_eq!(c.page_ids(), vec![1, 2, 3]);
    c.lookup_frame(1).unwrap();
    assert_eq!(c.page_ids(), vec![1, 2, 3]);
    assert!(c.lookup_frame(9).is_none());
    assert_eq!(c.page_ids(), vec![1, 2, 3]);
}

#[test]
fn cache_evict_removes_any_position() {
    let mut c = Cache::new(4);
    for p in 1..=4u32 {
        c.put_frame(p, 0, vec![0; 4096]).unwrap();
    }
    c.evict_frame(3);
    assert_eq!(c.page_ids(), vec![4, 2, 1]);
    c.evict_frame(4);
    assert_eq!(c.page_ids(), vec![2, 1]);
    c.evict_frame(1);
    assert_eq!(c.page_ids(), vec![2]);
    c.evict_frame(8);
    assert_eq!(c.page_ids(), vec![2]);
    c.evict_frame(2);
    assert!(c.page_ids().is_empty());
    assert_eq!(c.len(), 0);
    c.put_frame(5, 0, vec![0; 4096]).unwrap();
    c.put_frame(6, 0, vec![0; 4096]).unwrap();
    assert_eq!(c.page_ids(), vec![6, 5]);
}

#[test]
fn cache_victim_skips_pinned_frames() {
    let mut c = Cache::new(3);
    for p in 1..=3u32 {
        c.put_frame(p, 0, vec![0; 4096]).unwrap();
    }
    assert!(c.pin_frame(1));
    assert!(c.pin_frame(2));
    let v = c.put_frame(4, 0, vec![0; 4096]).unwrap().unwrap();
    assert_eq!(v.page_id, 3);
    assert!(c.pin_frame(4));
    assert_eq!(c.put_frame(5, 0, vec![0; 4096]).unwrap_err(), CacheError::NoEvictableFrame);
    assert_eq!(c.page_ids(), vec![4, 2, 1]);
    assert!(c.unpin_frame(2));
    let v = c.put_frame(5, 0, vec![0; 4096]).unwrap().unwrap();
    assert_eq!(v.page_id, 2);
    assert!(!c.pin_frame(9));
    assert!(!c.unpin_frame(5));
}

#[test]
fn cache_write_marks_dirty_and_clean() {
    let mut c = Cache::new(2);
    c.put_frame(1, 0, vec![0; 4096]).unwrap();
    assert!(!c.get_frame(1).unwrap().dirty);
    assert!(c.write_frame(1, vec![5; 4096]));
    let f = c.get_frame(1).unwrap();
    assert!(f.dirty);
    assert_eq!(f.content, vec![5; 4096]);
    assert!(c.mark_clean(1));
    assert!(!c.get_frame(1).unwrap().dirty);
    assert!(!c.write_frame(2, vec![5; 4096]));
    assert!(!c.mark_clean(2));
}

#[test]
fn cache_entry_and_frame_construction() {
    let f = Frame::new(7, 8192, vec![9; 4096]);
    assert_eq!(f.page_id, 7);
    assert_eq!(f.offset, 8192);
    assert!(!f.dirty);
    assert_eq!(f.pin_count, 0);
    assert_eq!(f.cursor, 0);
    let _e = CacheEntry::new(f);
}

#[test]
fn frame_read_copies_from_cursor() {
    let mut content = vec![0u8; 4096];
    for (i, v) in content.iter_mut().enumerate() {
        *v = (i % 200) as u8;
    }
    let mut f = Frame::new(1, 0, content.clone());
    let mut buf = vec![255u8; 10];
    assert_eq!(f.read(&mut buf), 10);
    assert_eq!(buf, content[0..10].to_vec());
    f.cursor = 4090;
    let mut buf = vec![255u8; 10];
    assert_eq!(f.read(&mut buf), 6);
    assert_eq!(&buf[0..6], &content[4090..4096]);
    assert_eq!(&buf[6..10], &[255u8; 4]);
    let dup = f.duplicate();
    assert_eq!(dup.content, content);
    assert_eq!(dup.cursor, 4090);
}
