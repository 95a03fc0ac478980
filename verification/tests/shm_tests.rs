use eos_base::errno::Errno;
use eos_base::shm::{
    Chunk, MmapGuard, MmapSegment, MmapStep, ShmScheme, ShmWrite, WriteStep, AT_REMOVEDIR, O_CREAT,
    O_EXCL, PAGE_SIZE,
};

fn guard(sizes: &[(usize, usize)], len: usize) -> MmapGuard {
    MmapGuard {
        segments: sizes.iter().map(|&(base, size)| MmapSegment { base, size }).collect(),
        len,
    }
}

fn summary(c: &[Chunk]) -> Vec<(usize, usize, usize, usize)> {
    c.iter().map(|c| (c.seg, c.addr, c.buf_idx, c.len)).collect()
}

#[test]
fn flags_match_the_system() {
    assert_eq!(O_CREAT, syscall::flag::O_CREAT);
    assert_eq!(O_EXCL, syscall::flag::O_EXCL);
    assert_eq!(PAGE_SIZE, 4096);
}

#[test]
fn chunks_follow_the_segments() {
    let g = guard(&[(0x1000, 4096), (0x9000, 8192)], 12288);
    assert_eq!(g.total_capacity(), 12288);
    assert_eq!(summary(&g.chunks(4000, 200)), vec![(0, 0x1000 + 4000, 0, 96), (1, 0x9000, 96, 104)]);
    assert_eq!(summary(&g.chunks(5000, 10)), vec![(1, 0x9000 + 904, 0, 10)]);
    assert!(g.chunks(100, 0).is_empty());
    assert_eq!(summary(&g.read_plan(12000, 1000)), vec![(1, 0x9000 + 12000 - 4096, 0, 288)]);
    assert!(g.read_plan(12288, 10).is_empty());
    assert_eq!(g.as_ptr(), 0x1000);
    assert_eq!(MmapGuard::empty().as_ptr(), 0);
}

#[test]
fn read_after_write_touches_the_same_memory() {
    let mut g = guard(&[(0x1000, 4096), (0x9000, 4096)], 100);
    let w = match g.write_plan(4090, 20) {
        Ok(WriteStep::Copy(c)) => c,
        other => panic!("unexpected {:?}", other),
    };
    assert_eq!(g.len(), 4110);
    let r = g.read_plan(4090, 20);
    assert_eq!(summary(&w), summary(&r));
}

#[test]
fn writes_grow_by_whole_pages() {
    let mut g = MmapGuard::empty();
    match g.write_plan(10, 5000) {
        Ok(WriteStep::Grow(n)) => assert_eq!(n, 8192),
        other => panic!("unexpected {:?}", other),
    }
    assert_eq!(g.len(), 0);
    g.add_segment(0x4000, 8192, 5010);
    assert_eq!(g.len(), 5010);
    match g.write_plan(10, 5000) {
        Ok(WriteStep::Copy(c)) => assert_eq!(summary(&c), vec![(0, 0x4000 + 10, 0, 5000)]),
        other => panic!("unexpected {:?}", other),
    }
    assert!(matches!(g.write_plan(usize::MAX, 1), Err(Errno::Range)));
    assert_eq!(g.grow_fits(100), None);
    assert_eq!(g.len(), 100);
    assert_eq!(g.grow_fits(8193), Some(4096));
}

#[test]
fn open_create_and_errors() {
    let mut s = ShmScheme::new();
    let root = s.scheme_root();
    assert_eq!(root, 0);
    assert_eq!(s.openat(9, b"a", O_CREAT), Err(Errno::BadF));
    assert_eq!(s.openat(root, b"a", 0), Err(Errno::NoEnt));
    let a = s.openat(root, b"a", O_CREAT).unwrap();
    assert_eq!(a, 1);
    assert_eq!(s.openat(a, b"b", O_CREAT), Err(Errno::Acces));
    assert_eq!(s.openat(root, b"a", O_CREAT | O_EXCL), Err(Errno::Exist));
    let a2 = s.openat(root, b"a", O_CREAT).unwrap();
    assert_eq!(a2, 2);
    assert_eq!(s.maps.len(), 1);
    assert_eq!(s.maps[0].1.refs, 2);
}

#[test]
fn paths_of_handles() {
    let mut s = ShmScheme::new();
    let root = s.scheme_root();
    let a = s.openat(root, b"name", O_CREAT).unwrap();
    assert_eq!(s.fpath(a, 64).unwrap(), b"/scheme/shm/name".to_vec());
    assert_eq!(s.fpath(a, 14).unwrap(), b"/scheme/shm/na".to_vec());
    assert_eq!(s.fpath(a, 5).unwrap(), b"/sche".to_vec());
    assert_eq!(s.fpath(root, 64), Err(Errno::BadF));
    assert_eq!(s.fpath(99, 3).unwrap(), b"/sc".to_vec());
}

#[test]
fn objects_live_until_unlinked_and_closed() {
    let mut s = ShmScheme::new();
    let root = s.scheme_root();
    let a = s.openat(root, b"x", O_CREAT).unwrap();
    assert!(matches!(s.unlinkat(root, b"x", AT_REMOVEDIR), Err(Errno::NotDir)));
    assert!(matches!(s.unlinkat(a, b"x", 0), Err(Errno::Acces)));
    assert!(matches!(s.unlinkat(root, b"y", 0), Err(Errno::NoEnt)));
    assert!(matches!(s.unlinkat(root, b"x", 0), Ok(None)));
    assert_eq!(s.maps.len(), 1);
    assert!(s.maps[0].1.unlinked);
    assert!(s.on_close(a).is_none());
    assert_eq!(s.maps.len(), 0);
    assert_eq!(s.handles.len(), 1);
    let b = s.openat(root, b"z", O_CREAT).unwrap();
    s.on_close(b);
    assert_eq!(s.maps.len(), 1);
    assert_eq!(s.maps[0].1.refs, 0);
    assert!(matches!(s.unlinkat(root, b"z", 0), Ok(None)));
    assert_eq!(s.maps.len(), 0);
    s.on_close(root);
    assert!(s.handles.is_empty());
}

#[test]
fn memory_of_an_object() {
    let mut s = ShmScheme::new();
    let root = s.scheme_root();
    let a = s.openat(root, b"m", O_CREAT).unwrap();
    assert_eq!(s.fsize(a), Ok(0));
    assert_eq!(s.fsize(root), Err(Errno::BadF));
    assert!(matches!(s.read(a, 0, 10), Err(Errno::Range)));
    assert!(matches!(s.mmap_prep(a, 0, 100), Ok(MmapStep::Alloc(100))));
    assert!(matches!(s.write(a, 0, 10), Ok(ShmWrite::Create)));
    assert_eq!(s.can_truncate(a), Ok(()));
    s.install(a, guard(&[(0x8000, 4096)], 4096));
    assert_eq!(s.can_truncate(a), Err(Errno::Io));
    assert_eq!(s.fsize(a), Ok(4096));
    match s.mmap_prep(a, 16, 100) {
        Ok(MmapStep::Addr(addr)) => assert_eq!(addr, 0x8000 + 16),
        other => panic!("unexpected {:?}", other),
    }
    assert!(matches!(s.mmap_prep(a, 4000, 100), Err(Errno::Range)));
    match s.write(a, 4000, 200) {
        Ok(ShmWrite::Step(WriteStep::Grow(n))) => assert_eq!(n, 4096),
        other => panic!("unexpected {:?}", other),
    }
    s.grow(a, 0x20000, 4096, 4200);
    assert_eq!(s.fsize(a), Ok(4200));
    match s.write(a, 4000, 200) {
        Ok(ShmWrite::Step(WriteStep::Copy(c))) => {
            assert_eq!(summary(&c), vec![(0, 0x8000 + 4000, 0, 96), (1, 0x20000, 96, 104)])
        }
        other => panic!("unexpected {:?}", other),
    }
    let r = s.read(a, 4000, 500).unwrap();
    assert_eq!(summary(&r), vec![(0, 0x8000 + 4000, 0, 96), (1, 0x20000, 96, 104)]);
    assert!(matches!(s.unlinkat(root, b"m", 0), Ok(None)));
    let gone = s.on_close(a).unwrap();
    assert_eq!(gone.segments.len(), 2);
    assert_eq!(gone.len(), 4200);
    assert!(s.maps.is_empty());
}

#[test]
fn mapping_fresh_memory() {
    let mut s = ShmScheme::new();
    let root = s.scheme_root();
    let a = s.openat(root, b"n", O_CREAT).unwrap();
    let addr = s.install_mapped(a, guard(&[(0x5000, 4096)], 100), 8);
    assert_eq!(addr, 0x5008);
    assert_eq!(s.fsize(a), Ok(100));
}
