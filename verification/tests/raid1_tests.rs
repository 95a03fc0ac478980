use eos_base::errno::Errno;
use eos_base::raid1::{
    array_optimal, create_usable, first_active, hex, is_member_scheme, is_whole_disk, make_uuid,
    member_superblock,
    new_member_superblock, plan_assembly, resync_chunk, resync_progress, sb_offset,
    select_array_members, sort_by_member_index, superblock_block, superblock_location, uuid_eq,
    CreateError, Member, Raid1Disk, Superblock, RESYNC_CHUNK, SB_SIZE,
};

fn sb(uuid: u8, index: u32, generation: u64, last_full_sync: u64) -> Superblock {
    Superblock {
        array_uuid: [uuid; 16],
        member_index: index,
        generation,
        usable_bytes: 1 << 20,
        block_size: 512,
        last_full_sync,
        member_count: 2,
    }
}

fn member(id: usize, sb: Superblock) -> Member {
    Member { id, sb, dev_size: (1 << 20) + 2 * SB_SIZE, active: true }
}

fn chars(s: &str) -> Vec<char> {
    s.chars().collect()
}

#[test]
fn superblock_round_trip() {
    let s = Superblock {
        array_uuid: [7u8, 1, 2, 3, 4, 5, 6, 8, 9, 10, 11, 12, 13, 14, 15, 16],
        member_index: 1,
        generation: 0x0102_0304_0506_0708,
        usable_bytes: 123_456_789,
        block_size: 512,
        last_full_sync: 42,
        member_count: 2,
    };
    let bytes = s.to_bytes();
    assert_eq!(&bytes[0..8], b"EOSRAID1");
    assert_eq!(&bytes[8..12], &2u32.to_le_bytes());
    let back = Superblock::from_bytes(&bytes).unwrap();
    assert_eq!(back.array_uuid, s.array_uuid);
    assert_eq!(back.member_index, 1);
    assert_eq!(back.generation, 0x0102_0304_0506_0708);
    assert_eq!(back.usable_bytes, 123_456_789);
    assert_eq!(back.block_size, 512);
    assert_eq!(back.last_full_sync, 42);
    assert_eq!(back.member_count, 2);
}

#[test]
fn superblock_rejects_bad_magic_version_and_short_input() {
    let s = sb(1, 0, 1, 1);
    let mut bytes = s.to_bytes();
    assert!(Superblock::from_bytes(&bytes[..63]).is_none());
    bytes[0] = b'X';
    assert!(Superblock::from_bytes(&bytes).is_none());
    let mut bytes = s.to_bytes();
    bytes[8] = 3;
    assert!(Superblock::from_bytes(&bytes).is_none());
}

#[test]
fn superblock_offsets() {
    assert_eq!(sb_offset(4096), 0);
    assert_eq!(sb_offset(8192), 4096);
    assert_eq!(sb_offset(10_000), 4096);
    assert_eq!(superblock_location(8191), None);
    assert_eq!(superblock_location(8192), Some(4096));
    let block = superblock_block(&sb(3, 0, 5, 5));
    assert_eq!(block.len(), 4096);
    assert_eq!(&block[..64], &sb(3, 0, 5, 5).to_bytes()[..]);
    assert!(block[64..].iter().all(|b| *b == 0));
}

#[test]
fn hex_is_lowercase_two_digits_per_byte() {
    assert_eq!(hex(&[]), "");
    assert_eq!(hex(&[0x00, 0x0f, 0xa5, 0xff]), "000fa5ff");
}

fn mix(mut z: u64) -> u64 {
    z = (z ^ (z >> 30)).wrapping_mul(0xBF58_476D_1CE4_E5B9);
    z = (z ^ (z >> 27)).wrapping_mul(0x94D0_49BB_1331_11EB);
    z ^ (z >> 31)
}

#[test]
fn uuid_is_splitmix_of_clock_and_pid() {
    let seed = 1_000u64 ^ (7u64 << 32) ^ 0xA076_1D64_78BD_642F;
    let z1 = mix(seed);
    let z2 = mix(z1);
    let mut expected = [0u8; 16];
    expected[..8].copy_from_slice(&z1.to_le_bytes());
    expected[8..].copy_from_slice(&z2.to_le_bytes());
    assert_eq!(make_uuid(Some(1_000), 7), expected);
    let fallback = mix(0x9E37_79B9u64 ^ 0xA076_1D64_78BD_642F);
    assert_eq!(&make_uuid(None, 0)[..8], &fallback.to_le_bytes());
    assert_ne!(make_uuid(Some(1), 7), make_uuid(Some(2), 7));
}

#[test]
fn create_geometry() {
    assert_eq!(create_usable(8191, 1 << 30), Err(CreateError::MemberTooSmall));
    assert_eq!(create_usable(1 << 30, 4096), Err(CreateError::MemberTooSmall));
    assert_eq!(create_usable(3 * 4096, 5 * 4096 + 100), Ok(2 * 4096));
    let m = new_member_superblock([9; 16], 8192, 1);
    assert_eq!(m.member_index, 1);
    assert_eq!(m.generation, 1);
    assert_eq!(m.last_full_sync, 1);
    assert_eq!(m.block_size, 512);
    assert_eq!(m.member_count, 2);
    assert_eq!(m.usable_bytes, 8192);
}

#[test]
fn resync_steps_and_progress() {
    assert_eq!(resync_chunk(0, 3 * RESYNC_CHUNK), RESYNC_CHUNK);
    assert_eq!(resync_chunk(RESYNC_CHUNK, RESYNC_CHUNK + 10), 10);
    assert_eq!(resync_progress(24, 100, 0), None);
    assert_eq!(resync_progress(25, 100, 0), Some(25));
    assert_eq!(resync_progress(60, 100, 25), Some(60));
    assert_eq!(resync_progress(49, 100, 25), None);
}

#[test]
fn array_status() {
    assert!(array_optimal(2, 2));
    assert!(!array_optimal(1, 2));
    assert!(!array_optimal(1, 1));
}

#[test]
fn disk_scan_filters() {
    assert!(is_member_scheme(&chars("disk.ahci\n")));
    assert!(!is_member_scheme(&chars("disk.raid1")));
    assert!(!is_member_scheme(&chars(" disk.live ")));
    assert!(!is_member_scheme(&chars("disk")));
    assert!(!is_member_scheme(&chars("file")));
    assert!(is_whole_disk(&chars("0\n")));
    assert!(!is_whole_disk(&chars("0p1")));
    assert!(!is_whole_disk(&chars(" \n")));
}

#[test]
fn byte_offsets_are_checked() {
    let d = Raid1Disk { members: vec![], primary: 0, usable_bytes: 4096, block_size: 512 };
    assert_eq!(d.byte_off(1, 512), Ok(512));
    assert_eq!(d.byte_off(7, 512), Ok(3584));
    assert_eq!(d.byte_off(8, 1), Err(Errno::Inval));
    assert_eq!(d.byte_off(u64::MAX, 0), Err(Errno::Inval));
}

#[test]
fn reads_try_primary_then_mirror() {
    let mut a = member(0, sb(1, 0, 3, 3));
    let b = member(1, sb(1, 1, 3, 3));
    let d = Raid1Disk { members: vec![a, b], primary: 1, usable_bytes: 4096, block_size: 512 };
    assert_eq!(d.read_candidates(), vec![1, 0]);
    a.active = false;
    let d = Raid1Disk { members: vec![a, b], primary: 0, usable_bytes: 4096, block_size: 512 };
    assert_eq!(d.read_candidates(), vec![1]);
}

#[test]
fn failed_write_drops_member_and_bumps_survivors() {
    let a = member(0, sb(1, 0, 3, 3));
    let b = member(1, sb(1, 1, 5, 3));
    let mut d = Raid1Disk { members: vec![a, b], primary: 0, usable_bytes: 4096, block_size: 512 };
    assert_eq!(d.record_write(&vec![true, false]), Ok(true));
    assert!(d.members[0].active);
    assert!(!d.members[1].active);
    assert_eq!(d.members[0].sb.generation, 4);
    assert_eq!(d.members[1].sb.generation, 5);
    assert_eq!(d.record_write(&vec![true, true]), Ok(false));
    assert_eq!(d.members[0].sb.generation, 4);
    assert_eq!(d.record_write(&vec![false, true]), Err(Errno::Io));
}

#[test]
fn assembly_picks_newest_and_rebuilds_stale() {
    let a = member(0, sb(1, 0, 4, 4));
    let b = member(1, sb(1, 1, 6, 6));
    let plan = plan_assembly(&vec![a, b]);
    assert_eq!(plan.newest, 6);
    assert_eq!(plan.member_count, 2);
    assert!(!plan.split_brain);
    assert_eq!(plan.source, 1);
    assert_eq!(plan.rebuild, vec![0]);
}

#[test]
fn assembly_detects_split_brain() {
    let a = member(0, sb(1, 0, 6, 4));
    let b = member(1, sb(1, 1, 6, 4));
    let plan = plan_assembly(&vec![a, b]);
    assert!(plan.split_brain);
    assert_eq!(plan.rebuild.len(), 1);
    assert_ne!(plan.rebuild[0], plan.source);
}

#[test]
fn members_of_the_first_array_only() {
    let a = member(0, sb(1, 0, 1, 1));
    let b = member(1, sb(2, 0, 1, 1));
    let c = member(2, sb(1, 1, 1, 1));
    let sel = select_array_members(&vec![a, b, c]);
    assert_eq!(sel.iter().map(|m| m.id).collect::<Vec<_>>(), vec![0, 2]);
    assert!(uuid_eq(&[1; 16], &[1; 16]));
    assert!(!uuid_eq(&[1; 16], &[2; 16]));
}

#[test]
fn members_sorted_by_index_and_first_active() {
    let a = member(0, sb(1, 1, 1, 1));
    let mut b = member(1, sb(1, 0, 1, 1));
    b.active = false;
    let sorted = sort_by_member_index(vec![a, b]);
    assert_eq!(sorted[0].sb.member_index, 0);
    assert_eq!(sorted[1].sb.member_index, 1);
    assert_eq!(first_active(&sorted), 1);
}

#[test]
fn dropped_member_becomes_stale() {
    let a = member(0, sb(1, 0, 7, 7));
    let b = member(1, sb(1, 1, 7, 7));
    let mut d = Raid1Disk { members: vec![a, b], primary: 0, usable_bytes: 4096, block_size: 512 };
    assert_eq!(d.record_write(&vec![true, false]), Ok(true));
    assert!(d.members[0].sb.generation > d.members[1].sb.generation);
    assert_eq!(d.members[0].sb.generation, 8);
    assert_eq!(d.members[1].sb.generation, 7);
    let plan = plan_assembly(&d.members);
    assert_eq!(plan.source, 0);
    assert_eq!(plan.rebuild, vec![1]);
}

#[test]
fn untrusted_geometry_is_refused() {
    let dev = (1u64 << 20) + 2 * SB_SIZE;
    let good = sb(3, 0, 5, 5);
    let block = superblock_block(&good);
    let read = member_superblock(&block, dev).unwrap();
    assert_eq!(read.usable_bytes, good.usable_bytes);
    assert_eq!(read.generation, 5);
    // The data region may end right at the superblock, not past it.
    assert!(member_superblock(&block, (1 << 20) + SB_SIZE).is_some());
    assert!(member_superblock(&block, (1 << 20) + SB_SIZE - 1).is_none());
    assert!(member_superblock(&block, SB_SIZE).is_none());
    let no_blocks = Superblock { block_size: 0, ..good };
    assert!(member_superblock(&superblock_block(&no_blocks), dev).is_none());
    let huge = Superblock { usable_bytes: u64::MAX, ..good };
    assert!(member_superblock(&superblock_block(&huge), dev).is_none());
    let mut garbage = block.clone();
    garbage[0] ^= 0xFF;
    assert!(member_superblock(&garbage, dev).is_none());
}

#[test]
fn sorting_members_keeps_ties_in_order() {
    let a = member(7, sb(1, 1, 1, 1));
    let b = member(3, sb(1, 0, 1, 1));
    let c = member(5, sb(1, 1, 1, 1));
    let sorted = sort_by_member_index(vec![a, b, c]);
    assert_eq!(sorted.iter().map(|m| m.id).collect::<Vec<usize>>(), vec![3, 7, 5]);
}
