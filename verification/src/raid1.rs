//! The RAID-1 mirror daemon: the on-disk superblock, the assembly of an array
//! from the members found on the disks, and the bookkeeping of reads and
//! writes on the assembled mirror.

use vstd::prelude::*;
use vstd::bytes::*;
use vstd::slice::slice_subrange;
use crate::errno::Errno;
use vstd::string::StringExecFns;
use crate::init::{trim, trim_chars, chars_is};

verus! {

/// Size of the reserved superblock area at the end of every member.
pub const SB_SIZE: u64 = 4096;
/// Version of the superblock layout.
pub const SB_VERSION: u32 = 2;
/// Length of the encoded superblock.
pub const SB_LEN: usize = 64;

/// The magic bytes `EOSRAID1` that open every superblock.
pub open spec fn spec_magic() -> Seq<u8> {
    seq![0x45u8, 0x4Fu8, 0x53u8, 0x52u8, 0x41u8, 0x49u8, 0x44u8, 0x31u8]
}

/// The superblock stored in the last 4 KiB block of every member disk.
#[derive(Debug, Copy, Clone)]
pub struct Superblock {
    pub array_uuid: [u8; 16],
    pub member_index: u32,
    pub generation: u64,
    pub usable_bytes: u64,
    pub block_size: u32,
    /// The generation at which this member was last part of a complete,
    /// consistent assembly.
    pub last_full_sync: u64,
    /// Total members in the array.
    pub member_count: u32,
}

/// The 64 bytes that encode a superblock.
pub open spec fn spec_encode(sb: Superblock) -> Seq<u8> {
    spec_magic() + spec_u32_to_le_bytes(SB_VERSION) + sb.array_uuid@ + spec_u32_to_le_bytes(
        sb.member_index,
    ) + spec_u64_to_le_bytes(sb.generation) + spec_u64_to_le_bytes(sb.usable_bytes)
        + spec_u32_to_le_bytes(sb.block_size) + spec_u64_to_le_bytes(sb.last_full_sync)
        + spec_u32_to_le_bytes(sb.member_count)
}

/// `b` starts with a superblock of the current version.
pub open spec fn spec_decodable(b: Seq<u8>) -> bool {
    &&& b.len() >= 64
    &&& b.subrange(0, 8) == spec_magic()
    &&& spec_u32_from_le_bytes(b.subrange(8, 12)) == SB_VERSION
}

/// The fields of `sb` are those stored in the first 64 bytes of `b`.
pub open spec fn spec_fields_of(b: Seq<u8>, sb: Superblock) -> bool {
    &&& sb.array_uuid@ == b.subrange(12, 28)
    &&& sb.member_index == spec_u32_from_le_bytes(b.subrange(28, 32))
    &&& sb.generation == spec_u64_from_le_bytes(b.subrange(32, 40))
    &&& sb.usable_bytes == spec_u64_from_le_bytes(b.subrange(40, 48))
    &&& sb.block_size == spec_u32_from_le_bytes(b.subrange(48, 52))
    &&& sb.last_full_sync == spec_u64_from_le_bytes(b.subrange(52, 60))
    &&& sb.member_count == spec_u32_from_le_bytes(b.subrange(60, 64))
}

proof fn lemma_encode_len(sb: Superblock)
    ensures
        spec_encode(sb).len() == 64,
{
    lemma_auto_spec_u32_to_from_le_bytes();
    lemma_auto_spec_u64_to_from_le_bytes();
}

fn push_all(v: &mut Vec<u8>, s: &[u8])
    ensures
        final(v)@ == old(v)@ + s@,
{
    let mut i: usize = 0;
    let ghost start = v@;
    while i < s.len()
        invariant
            i <= s.len(),
            v@ == start + s@.subrange(0, i as int),
        decreases s.len() - i,
    {
        v.push(s[i]);
        i += 1;
        assert(v@ =~= start + s@.subrange(0, i as int));
    }
    assert(s@.subrange(0, s.len() as int) =~= s@);
}

impl Superblock {
    /// Encodes the superblock into its 64-byte on-disk form.
    pub fn to_bytes(&self) -> (b: [u8; 64])
        ensures
            b@ == spec_encode(*self),
    {
        let magic: [u8; 8] = [0x45, 0x4F, 0x53, 0x52, 0x41, 0x49, 0x44, 0x31];
        assert(magic@ =~= spec_magic());
        let mut v: Vec<u8> = Vec::new();
        push_all(&mut v, magic.as_slice());
        let t = u32_to_le_bytes(SB_VERSION);
        push_all(&mut v, t.as_slice());
        push_all(&mut v, self.array_uuid.as_slice());
        let t = u32_to_le_bytes(self.member_index);
        push_all(&mut v, t.as_slice());
        let t = u64_to_le_bytes(self.generation);
        push_all(&mut v, t.as_slice());
        let t = u64_to_le_bytes(self.usable_bytes);
        push_all(&mut v, t.as_slice());
        let t = u32_to_le_bytes(self.block_size);
        push_all(&mut v, t.as_slice());
        let t = u64_to_le_bytes(self.last_full_sync);
        push_all(&mut v, t.as_slice());
        let t = u32_to_le_bytes(self.member_count);
        push_all(&mut v, t.as_slice());
        assert(v@ =~= spec_encode(*self));
        proof { lemma_encode_len(*self); }
        let mut b = [0u8; 64];
        let mut i: usize = 0;
        while i < 64
            invariant
                v@ == spec_encode(*self),
                v.len() == 64,
                i <= 64,
                forall|j: int| 0 <= j < i ==> b@[j] == v@[j],
            decreases 64 - i,
        {
            b[i] = v[i];
            i += 1;
        }
        assert(b@ =~= v@);
        b
    }

    /// Decodes a superblock from the start of `b`, if `b` holds one of the
    /// current version.
    pub fn from_bytes(b: &[u8]) -> (r: Option<Superblock>)
        ensures
            r is Some <==> spec_decodable(b@),
            r matches Some(sb) ==> spec_fields_of(b@, sb),
    {
        if b.len() < 64 {
            return None;
        }
        let mut i: usize = 0;
        let magic: [u8; 8] = [0x45, 0x4F, 0x53, 0x52, 0x41, 0x49, 0x44, 0x31];
        assert(magic@ =~= spec_magic());
        while i < 8
            invariant
                b.len() >= 64,
                i <= 8,
                magic@ == spec_magic(),
                forall|j: int| 0 <= j < i ==> b@[j] == spec_magic()[j],
            decreases 8 - i,
        {
            if b[i] != magic[i] {
                assert(b@.subrange(0, 8)[i as int] != spec_magic()[i as int]);
                return None;
            }
            i += 1;
        }
        assert(b@.subrange(0, 8) =~= spec_magic());
        let version = u32_from_le_bytes(slice_subrange(b, 8, 12));
        if version != SB_VERSION {
            return None;
        }
        let mut uuid = [0u8; 16];
        let mut k: usize = 0;
        while k < 16
            invariant
                b.len() >= 64,
                k <= 16,
                forall|j: int| 0 <= j < k ==> uuid@[j] == b@[12 + j],
            decreases 16 - k,
        {
            uuid[k] = b[12 + k];
            k += 1;
        }
        assert(uuid@ =~= b@.subrange(12, 28));
        Some(Superblock {
            array_uuid: uuid,
            member_index: u32_from_le_bytes(slice_subrange(b, 28, 32)),
            generation: u64_from_le_bytes(slice_subrange(b, 32, 40)),
            usable_bytes: u64_from_le_bytes(slice_subrange(b, 40, 48)),
            block_size: u32_from_le_bytes(slice_subrange(b, 48, 52)),
            last_full_sync: u64_from_le_bytes(slice_subrange(b, 52, 60)),
            member_count: u32_from_le_bytes(slice_subrange(b, 60, 64)),
        })
    }
}

/// Decoding an encoded superblock gives back the same superblock.
pub proof fn lemma_decode_encode(sb: Superblock)
    ensures
        spec_decodable(spec_encode(sb)),
        spec_fields_of(spec_encode(sb), sb),
{
    lemma_auto_spec_u32_to_from_le_bytes();
    lemma_auto_spec_u64_to_from_le_bytes();
    let e = spec_encode(sb);
    assert(e.subrange(0, 8) =~= spec_magic());
    assert(e.subrange(8, 12) =~= spec_u32_to_le_bytes(SB_VERSION));
    assert(e.subrange(12, 28) =~= sb.array_uuid@);
    assert(e.subrange(28, 32) =~= spec_u32_to_le_bytes(sb.member_index));
    assert(e.subrange(32, 40) =~= spec_u64_to_le_bytes(sb.generation));
    assert(e.subrange(40, 48) =~= spec_u64_to_le_bytes(sb.usable_bytes));
    assert(e.subrange(48, 52) =~= spec_u32_to_le_bytes(sb.block_size));
    assert(e.subrange(52, 60) =~= spec_u64_to_le_bytes(sb.last_full_sync));
    assert(e.subrange(60, 64) =~= spec_u32_to_le_bytes(sb.member_count));
}

/// A decoded superblock encodes back to the 64 bytes it was read from.
pub proof fn lemma_encode_decode(b: Seq<u8>, sb: Superblock)
    requires
        spec_decodable(b),
        spec_fields_of(b, sb),
    ensures
        spec_encode(sb) == b.subrange(0, 64),
{
    lemma_auto_spec_u32_to_from_le_bytes();
    lemma_auto_spec_u64_to_from_le_bytes();
    assert(spec_u32_to_le_bytes(SB_VERSION) == b.subrange(8, 12));
    assert(spec_u32_to_le_bytes(sb.member_index) == b.subrange(28, 32));
    assert(spec_u64_to_le_bytes(sb.generation) == b.subrange(32, 40));
    assert(spec_u64_to_le_bytes(sb.usable_bytes) == b.subrange(40, 48));
    assert(spec_u32_to_le_bytes(sb.block_size) == b.subrange(48, 52));
    assert(spec_u64_to_le_bytes(sb.last_full_sync) == b.subrange(52, 60));
    assert(spec_u32_to_le_bytes(sb.member_count) == b.subrange(60, 64));
    assert(spec_encode(sb) =~= b.subrange(0, 64));
}

/// Offset of the superblock: the last 4 KiB-aligned block of the device.
pub open spec fn spec_sb_offset(dev_size: u64) -> int {
    (dev_size / SB_SIZE) * SB_SIZE - SB_SIZE
}

/// Superblock location: the last 4 KiB-aligned block of the device.
pub fn sb_offset(dev_size: u64) -> (off: u64)
    requires
        dev_size >= SB_SIZE,
    ensures
        off == spec_sb_offset(dev_size),
{
    (dev_size / SB_SIZE) * SB_SIZE - SB_SIZE
}

/// The superblock block is 4 KiB-aligned and lies inside the device.
pub proof fn lemma_sb_offset_in_device(dev_size: u64)
    requires
        dev_size >= SB_SIZE,
    ensures
        spec_sb_offset(dev_size) >= 0,
        spec_sb_offset(dev_size) % (SB_SIZE as int) == 0,
        spec_sb_offset(dev_size) + SB_SIZE <= dev_size,
        dev_size < spec_sb_offset(dev_size) + 2 * SB_SIZE,
{
    let q = dev_size / SB_SIZE;
    assert(q * SB_SIZE <= dev_size && dev_size < q * SB_SIZE + SB_SIZE) by (nonlinear_arith)
        requires q == dev_size / SB_SIZE, SB_SIZE == 4096;
    assert(q >= 1);
    assert((q * SB_SIZE - SB_SIZE) % (SB_SIZE as int) == 0) by (nonlinear_arith)
        requires q >= 1, SB_SIZE == 4096;
}

/// Where the superblock of a device of `dev_size` bytes lives: a device
/// smaller than two superblock blocks holds none.
pub fn superblock_location(dev_size: u64) -> (r: Option<u64>)
    ensures
        r is None <==> dev_size < 2 * SB_SIZE,
        r matches Some(off) ==> off == spec_sb_offset(dev_size),
{
    if dev_size < 2 * SB_SIZE {
        None
    } else {
        Some(sb_offset(dev_size))
    }
}

/// The geometry a superblock read from a device claims fits that device:
/// blocks have a size, and the data region ends at or before the
/// superblock block.
pub open spec fn geometry_fits(sb: Superblock, dev_size: u64) -> bool {
    &&& dev_size >= 2 * SB_SIZE
    &&& sb.block_size != 0
    &&& sb.usable_bytes <= spec_sb_offset(dev_size)
}

/// The superblock a device of `dev_size` bytes holds in the block `block`
/// read at its superblock offset: none when the block does not decode, or
/// when the geometry it claims does not fit the device (a superblock on
/// disk is not trusted).
pub fn member_superblock(block: &[u8], dev_size: u64) -> (r: Option<Superblock>)
    ensures
        r is Some <==> spec_decodable(block@) && dev_size >= 2 * SB_SIZE
            && spec_u32_from_le_bytes(block@.subrange(48, 52)) != 0
            && spec_u64_from_le_bytes(block@.subrange(40, 48)) <= spec_sb_offset(dev_size),
        r matches Some(sb) ==> spec_fields_of(block@, sb) && geometry_fits(sb, dev_size),
{
    let sb = match Superblock::from_bytes(block) {
        Some(sb) => sb,
        None => return None,
    };
    if dev_size < 2 * SB_SIZE || sb.block_size == 0 || sb.usable_bytes > sb_offset(dev_size) {
        return None;
    }
    Some(sb)
}

/// The 4 KiB block written at the superblock offset: the encoded superblock
/// followed by zeros (disk schemes only accept whole blocks).
pub fn superblock_block(sb: &Superblock) -> (block: Vec<u8>)
    ensures
        block@.len() == SB_SIZE,
        block@.subrange(0, 64) == spec_encode(*sb),
        forall|i: int| 64 <= i < SB_SIZE ==> block@[i] == 0,
{
    let bytes = sb.to_bytes();
    proof { lemma_encode_len(*sb); }
    let mut block: Vec<u8> = Vec::new();
    let mut i: usize = 0;
    while i < 4096
        invariant
            i <= 4096,
            bytes@ == spec_encode(*sb),
            bytes@.len() == 64,
            block@.len() == i,
            forall|j: int| 0 <= j < i && j < 64 ==> block@[j] == bytes@[j],
            forall|j: int| 64 <= j < i ==> block@[j] == 0,
        decreases 4096 - i,
    {
        if i < 64 {
            block.push(bytes[i]);
        } else {
            block.push(0);
        }
        i += 1;
    }
    assert(block@.subrange(0, 64) =~= spec_encode(*sb));
    block
}

/// A member disk of the array: its superblock and size, and whether it
/// takes part in reads and writes. `id` names the open disk (and its path)
/// that the daemon holds for it.
#[derive(Debug, Copy, Clone)]
pub struct Member {
    pub id: usize,
    pub sb: Superblock,
    pub dev_size: u64,
    pub active: bool,
}

/// Number of active members.
pub open spec fn count_active(s: Seq<Member>) -> nat
    decreases s.len(),
{
    if s.len() == 0 {
        0
    } else {
        count_active(s.drop_last()) + if s.last().active { 1nat } else { 0nat }
    }
}

/// Largest generation among the active members, 0 when none is active.
pub open spec fn max_active_gen(s: Seq<Member>) -> u64
    decreases s.len(),
{
    if s.len() == 0 {
        0
    } else {
        let m = max_active_gen(s.drop_last());
        if s.last().active && s.last().sb.generation > m {
            s.last().sb.generation
        } else {
            m
        }
    }
}

proof fn lemma_count_active_bound(s: Seq<Member>)
    ensures
        count_active(s) <= s.len(),
    decreases s.len(),
{
    if s.len() > 0 {
        lemma_count_active_bound(s.drop_last());
    }
}

/// The assembled mirror exposed as one disk.
pub struct Raid1Disk {
    pub members: Vec<Member>,
    pub primary: usize,
    pub usable_bytes: u64,
    pub block_size: u32,
}

/// The members that survive a write: the active members whose write succeeded.
pub open spec fn survivors(members: Seq<Member>, ok: Seq<bool>) -> Seq<Member> {
    Seq::new(
        members.len(),
        |i: int| Member { active: members[i].active && ok[i], ..members[i] },
    )
}

/// The members after a write: when the set of active members shrank, the
/// survivors advance to one past their newest generation.
pub open spec fn after_write(members: Seq<Member>, ok: Seq<bool>) -> Seq<Member> {
    let s = survivors(members, ok);
    if count_active(s) < count_active(members) {
        let g = (max_active_gen(s) + 1) as u64;
        Seq::new(
            s.len(),
            |i: int|
                if s[i].active {
                    Member { sb: Superblock { generation: g, ..s[i].sb }, ..s[i] }
                } else {
                    s[i]
                },
        )
    } else {
        s
    }
}

impl Raid1Disk {
    /// Block size of the array.
    pub fn block_size(&self) -> (b: u32)
        ensures
            b == self.block_size,
    {
        self.block_size
    }

    /// Size in bytes of the array.
    pub fn size(&self) -> (s: u64)
        ensures
            s == self.usable_bytes,
    {
        self.usable_bytes
    }

    /// Byte offset of `block`, checking that `len` bytes from there fit in
    /// the usable area.
    pub fn byte_off(&self, block: u64, len: usize) -> (r: Result<u64, Errno>)
        requires
            block * self.block_size <= u64::MAX ==> block * self.block_size + len <= u64::MAX,
        ensures
            match r {
                Ok(off) => off == block * self.block_size && off + len <= self.usable_bytes,
                Err(e) => e == Errno::Inval && (block * self.block_size > u64::MAX || block
                    * self.block_size + len > self.usable_bytes),
            },
    {
        let off = match block.checked_mul(self.block_size as u64) {
            Some(off) => off,
            None => return Err(Errno::Inval),
        };
        if off + len as u64 > self.usable_bytes {
            return Err(Errno::Inval);
        }
        Ok(off)
    }

    /// The members to try, in order, for a read: the primary, then the other
    /// of the first two members, each only when it exists and is active.
    pub fn read_candidates(&self) -> (r: Vec<usize>)
        requires
            self.primary <= 1,
        ensures
            r@ == seq![self.primary as usize, (1 - self.primary) as usize].filter(
                |i: usize| i < self.members@.len() && self.members@[i as int].active,
            ),
    {
        let ghost order = seq![self.primary as usize, (1 - self.primary) as usize];
        let ghost pred = |i: usize| i < self.members@.len() && self.members@[i as int].active;
        let mut r: Vec<usize> = Vec::new();
        let first = self.primary;
        let second = 1 - self.primary;
        proof {
            reveal_with_fuel(Seq::<_>::filter, 3);
            assert(order.drop_last() =~= seq![first]);
            assert(order.drop_last().drop_last() =~= Seq::<usize>::empty());
        }
        if first < self.members.len() && self.members[first].active {
            r.push(first);
        }
        if second < self.members.len() && self.members[second].active {
            r.push(second);
        }
        assert(r@ =~= order.filter(pred));
        r
    }

    /// Records the outcome of a write: `ok[i]` tells whether the write on the
    /// active member `i` succeeded. Failed members leave the array; when none
    /// succeeded the write fails with EIO. When the active set shrank, the
    /// survivors advance their generation so that the dropped member is seen
    /// as stale at the next assembly; the result tells whether that happened,
    /// and the survivors' superblocks must then be written.
    pub fn record_write(&mut self, ok: &Vec<bool>) -> (r: Result<bool, Errno>)
        requires
            ok@.len() == old(self).members@.len(),
            count_active(survivors(old(self).members@, ok@)) < count_active(old(self).members@)
                ==> max_active_gen(survivors(old(self).members@, ok@)) < u64::MAX,
        ensures
            final(self).primary == old(self).primary,
            final(self).usable_bytes == old(self).usable_bytes,
            final(self).block_size == old(self).block_size,
            count_active(survivors(old(self).members@, ok@)) == 0 ==> r == Err::<bool, Errno>(
                Errno::Io,
            ) && final(self).members@ == survivors(old(self).members@, ok@),
            count_active(survivors(old(self).members@, ok@)) > 0 ==> r == Ok::<bool, Errno>(
                count_active(survivors(old(self).members@, ok@)) < count_active(
                    old(self).members@,
                ),
            ) && final(self).members@ == after_write(old(self).members@, ok@),
    {
        let ghost old_members = self.members@;
        let ghost s = survivors(old_members, ok@);
        let n = self.members.len();
        let mut before: usize = 0;
        let mut surv: usize = 0;
        let mut maxg: u64 = 0;
        let mut i: usize = 0;
        while i < n
            invariant
                n == self.members.len(),
                n == ok@.len(),
                old_members.len() == n,
                s == survivors(old_members, ok@),
                0 <= i <= n,
                forall|j: int| 0 <= j < i ==> self.members@[j] == s[j],
                forall|j: int| i <= j < n ==> self.members@[j] == old_members[j],
                before == count_active(old_members.take(i as int)),
                surv == count_active(s.take(i as int)),
                surv <= before,
                maxg == max_active_gen(s.take(i as int)),
                self.primary == old(self).primary,
                self.usable_bytes == old(self).usable_bytes,
                self.block_size == old(self).block_size,
            decreases n - i,
        {
            proof {
                lemma_count_active_bound(old_members.take(i as int));
                lemma_count_active_bound(s.take(i as int));
                assert(old_members.take(i + 1).drop_last() =~= old_members.take(i as int));
                assert(s.take(i + 1).drop_last() =~= s.take(i as int));
            }
            let mut m = self.members[i].clone();
            if m.active {
                before += 1;
                if ok[i] {
                    surv += 1;
                    if m.sb.generation > maxg {
                        maxg = m.sb.generation;
                    }
                } else {
                    m.active = false;
                }
            }
            self.members.set(i, m);
            i += 1;
        }
        assert(old_members.take(n as int) =~= old_members);
        assert(s.take(n as int) =~= s);
        assert(self.members@ =~= s);
        if surv == 0 {
            return Err(Errno::Io);
        }
        if surv < before {
            let g = maxg + 1;
            let mut k: usize = 0;
            while k < n
                invariant
                    n == self.members.len(),
                    s.len() == n,
                    g == max_active_gen(s) + 1,
                    0 <= k <= n,
                    forall|j: int|
                        0 <= j < k ==> self.members@[j] == (if s[j].active {
                            Member { sb: Superblock { generation: g, ..s[j].sb }, ..s[j] }
                        } else {
                            s[j]
                        }),
                    forall|j: int| k <= j < n ==> self.members@[j] == s[j],
                    self.primary == old(self).primary,
                    self.usable_bytes == old(self).usable_bytes,
                    self.block_size == old(self).block_size,
                decreases n - k,
            {
                let mut m = self.members[k].clone();
                if m.active {
                    m.sb.generation = g;
                }
                self.members.set(k, m);
                k += 1;
            }
            assert(self.members@ =~= after_write(old_members, ok@));
            Ok(true)
        } else {
            assert(self.members@ =~= after_write(old_members, ok@));
            Ok(false)
        }
    }
}

/// Two array identifiers are the same.
pub fn uuid_eq(a: &[u8; 16], b: &[u8; 16]) -> (r: bool)
    ensures
        r == (a@ == b@),
{
    let mut i: usize = 0;
    while i < 16
        invariant
            i <= 16,
            forall|j: int| 0 <= j < i ==> a@[j] == b@[j],
        decreases 16 - i,
    {
        if a[i] != b[i] {
            return false;
        }
        i += 1;
    }
    assert(a@ =~= b@);
    true
}

/// The members found on the disks that belong to the array of the first one.
pub open spec fn spec_select(found: Seq<Member>) -> Seq<Member> {
    if found.len() == 0 {
        found
    } else {
        found.filter(in_array(found[0].sb.array_uuid@))
    }
}

/// The member belongs to the array with identifier `uuid`.
pub open spec fn in_array(uuid: Seq<u8>) -> spec_fn(Member) -> bool {
    |m: Member| m.sb.array_uuid@ == uuid
}

/// Keeps the members found on the disks that belong to the same array as
/// the first one found; the others are ignored.
pub fn select_array_members(found: &Vec<Member>) -> (r: Vec<Member>)
    ensures
        r@ == spec_select(found@),
{
    let mut r: Vec<Member> = Vec::new();
    if found.len() == 0 {
        return r;
    }
    let first = found[0].sb.array_uuid;
    let ghost pred = in_array(found@[0].sb.array_uuid@);
    let mut i: usize = 0;
    while i < found.len()
        invariant
            i <= found.len(),
            found.len() > 0,
            first@ == found@[0].sb.array_uuid@,
            pred == in_array(found@[0].sb.array_uuid@),
            r@ == found@.take(i as int).filter(pred),
        decreases found.len() - i,
    {
        proof {
            assert(found@.take(i + 1) =~= found@.take(i as int).push(found@[i as int]));
            found@.take(i as int).lemma_filter_push(found@[i as int], pred);
        }
        let same = uuid_eq(&found[i].sb.array_uuid, &first);
        assert(same == pred(found@[i as int]));
        if same {
            r.push(found[i]);
        }
        i += 1;
    }
    assert(found@.take(found.len() as int) =~= found@);
    r
}

/// Largest generation of the members.
pub open spec fn max_gen(s: Seq<Member>) -> u64
    decreases s.len(),
{
    if s.len() == 0 {
        0
    } else {
        let m = max_gen(s.drop_last());
        if s.last().sb.generation > m { s.last().sb.generation } else { m }
    }
}

/// Largest member count recorded by the members.
pub open spec fn max_member_count(s: Seq<Member>) -> u32
    decreases s.len(),
{
    if s.len() == 0 {
        0
    } else {
        let m = max_member_count(s.drop_last());
        if s.last().sb.member_count > m { s.last().sb.member_count } else { m }
    }
}

proof fn lemma_max_gen(s: Seq<Member>)
    ensures
        forall|i: int| 0 <= i < s.len() ==> s[i].sb.generation <= max_gen(s),
        s.len() > 0 ==> exists|i: int| 0 <= i < s.len() && s[i].sb.generation == max_gen(s),
    decreases s.len(),
{
    if s.len() > 0 {
        let t = s.drop_last();
        lemma_max_gen(t);
        let last = s.len() - 1;
        assert(s[last] == s.last());
        assert forall|i: int| 0 <= i < s.len() implies s[i].sb.generation <= max_gen(s) by {
            if i < last {
                assert(s[i] == t[i]);
            }
        }
        if s.last().sb.generation > max_gen(t) || t.len() == 0 {
            assert(s[last].sb.generation == max_gen(s));
        } else {
            let i = choose|i: int| 0 <= i < t.len() && t[i].sb.generation == max_gen(t);
            assert(s[i] == t[i]);
            assert(s[i].sb.generation == max_gen(s));
        }
    }
}

/// Number of members at the generation `g`.
pub open spec fn count_at_gen(s: Seq<Member>, g: u64) -> nat
    decreases s.len(),
{
    if s.len() == 0 {
        0
    } else {
        count_at_gen(s.drop_last(), g) + if s.last().sb.generation == g { 1nat } else { 0nat }
    }
}

proof fn lemma_count_at_gen_bound(s: Seq<Member>, g: u64)
    ensures
        count_at_gen(s, g) <= s.len(),
    decreases s.len(),
{
    if s.len() > 0 {
        lemma_count_at_gen_bound(s.drop_last(), g);
    }
}

/// Some member at generation `g` advanced past its last full sync.
pub open spec fn diverged_at(s: Seq<Member>, g: u64) -> bool {
    exists|i: int|
        0 <= i < s.len() && s[i].sb.generation == g && s[i].sb.generation > s[i].sb.last_full_sync
}

/// `i` is the authoritative source: among the members at the newest
/// generation, the first with the lowest member index.
pub open spec fn is_source(s: Seq<Member>, i: int) -> bool {
    let g = max_gen(s);
    &&& 0 <= i < s.len()
    &&& s[i].sb.generation == g
    &&& forall|j: int|
        0 <= j < s.len() && s[j].sb.generation == g ==> s[i].sb.member_index
            <= s[j].sb.member_index
    &&& forall|j: int|
        0 <= j < i && s[j].sb.generation == g ==> s[i].sb.member_index < s[j].sb.member_index
}

/// The members to rebuild from the source: the stale ones, or all others in
/// a split-brain.
pub open spec fn spec_rebuild(s: Seq<Member>, source: int, split_brain: bool) -> Seq<usize> {
    Seq::new(s.len(), |i: int| i as usize).filter(needs_rebuild(s, source, split_brain))
}

/// Member `i` is rebuilt from the source: it is not the source, and it is
/// stale or the array split.
pub open spec fn needs_rebuild(s: Seq<Member>, source: int, split_brain: bool) -> spec_fn(
    usize,
) -> bool {
    |i: usize| i != source && (s[i as int].sb.generation < max_gen(s) || split_brain)
}

/// How to assemble the array from its members.
pub struct AssemblyPlan {
    /// The newest generation among the members.
    pub newest: u64,
    /// The number of members the array should have.
    pub member_count: u32,
    /// Two or more members reached the newest generation independently.
    pub split_brain: bool,
    /// Index of the authoritative member.
    pub source: usize,
    /// Indices of the members to rebuild from the source, ascending.
    pub rebuild: Vec<usize>,
}

/// Chooses the authoritative member and the members to rebuild from it.
///
/// A member whose generation is past its last full sync advanced while the
/// array was degraded; two such members sharing the newest generation
/// diverged independently (a split-brain), and all but the source are then
/// rebuilt. Otherwise only the members behind the newest generation are.
pub fn plan_assembly(members: &Vec<Member>) -> (plan: AssemblyPlan)
    requires
        members@.len() > 0,
    ensures
        plan.newest == max_gen(members@),
        plan.member_count == max_member_count(members@),
        plan.split_brain == (count_at_gen(members@, plan.newest) >= 2 && diverged_at(
            members@,
            plan.newest,
        )),
        is_source(members@, plan.source as int),
        plan.rebuild@ == spec_rebuild(members@, plan.source as int, plan.split_brain),
{
    let n = members.len();
    let mut newest: u64 = 0;
    let mut count: u32 = 0;
    let mut i: usize = 0;
    while i < n
        invariant
            n == members.len(),
            i <= n,
            newest == max_gen(members@.take(i as int)),
            count == max_member_count(members@.take(i as int)),
        decreases n - i,
    {
        proof {
            assert(members@.take(i + 1).drop_last() =~= members@.take(i as int));
        }
        if members[i].sb.generation > newest {
            newest = members[i].sb.generation;
        }
        if members[i].sb.member_count > count {
            count = members[i].sb.member_count;
        }
        i += 1;
    }
    assert(members@.take(n as int) =~= members@);
    proof {
        lemma_max_gen(members@);
    }
    let mut at_newest: usize = 0;
    let mut diverged = false;
    let mut source: usize = 0;
    let mut found = false;
    let mut k: usize = 0;
    while k < n
        invariant
            n == members.len(),
            n > 0,
            k <= n,
            newest == max_gen(members@),
            at_newest == count_at_gen(members@.take(k as int), newest),
            at_newest <= k,
            diverged == exists|j: int|
                0 <= j < k && members@[j].sb.generation == newest && members@[j].sb.generation
                    > members@[j].sb.last_full_sync,
            found == exists|j: int| 0 <= j < k && members@[j].sb.generation == newest,
            found ==> source < k && members@[source as int].sb.generation == newest,
            found ==> forall|j: int|
                0 <= j < k && members@[j].sb.generation == newest ==> members@[source as int].sb.member_index
                    <= members@[j].sb.member_index,
            found ==> forall|j: int|
                0 <= j < source && members@[j].sb.generation == newest ==> members@[source as int].sb.member_index
                    < members@[j].sb.member_index,
        decreases n - k,
    {
        proof {
            assert(members@.take(k + 1).drop_last() =~= members@.take(k as int));
            lemma_count_at_gen_bound(members@.take(k as int), newest);
        }
        let m = members[k];
        if m.sb.generation == newest {
            at_newest += 1;
            if m.sb.generation > m.sb.last_full_sync {
                diverged = true;
            }
            if !found || m.sb.member_index < members[source].sb.member_index {
                source = k;
                found = true;
            }
        }
        k += 1;
    }
    assert(members@.take(n as int) =~= members@);
    let split_brain = at_newest >= 2 && diverged;
    let ghost pred = needs_rebuild(members@, source as int, split_brain);
    let ghost idx = Seq::new(members@.len(), |i: int| i as usize);
    let mut rebuild: Vec<usize> = Vec::new();
    let mut r: usize = 0;
    while r < n
        invariant
            n == members.len(),
            r <= n,
            newest == max_gen(members@),
            idx == Seq::new(members@.len(), |i: int| i as usize),
            pred == needs_rebuild(members@, source as int, split_brain),
            rebuild@ == idx.take(r as int).filter(pred),
        decreases n - r,
    {
        proof {
            assert(idx.take(r + 1) =~= idx.take(r as int).push(idx[r as int]));
            idx.take(r as int).lemma_filter_push(idx[r as int], pred);
        }
        if r != source && (members[r].sb.generation < newest || split_brain) {
            rebuild.push(r);
        }
        r += 1;
    }
    assert(idx.take(n as int) =~= idx);
    AssemblyPlan { newest, member_count: count, split_brain, source, rebuild }
}

/// The superblock of a member rebuilt from the source: it takes the newest
/// generation and the source's geometry and sync point, and keeps its own
/// identity (array, member index, member count).
pub fn rebuilt_superblock(target: &Superblock, source: &Superblock, newest: u64) -> (sb:
    Superblock)
    ensures
        sb == (Superblock {
            generation: newest,
            usable_bytes: source.usable_bytes,
            block_size: source.block_size,
            last_full_sync: source.last_full_sync,
            ..*target
        }),
{
    Superblock {
        generation: newest,
        usable_bytes: source.usable_bytes,
        block_size: source.block_size,
        last_full_sync: source.last_full_sync,
        ..*target
    }
}

/// Records the outcome of rebuilding a member: when the data copy failed
/// the member stays as it was and leaves the array; otherwise it takes the
/// rebuilt superblock and stays in the array only if that superblock was
/// written.
pub fn finish_rebuild(m: &mut Member, rebuilt: Superblock, copy_ok: bool, sb_write_ok: bool)
    ensures
        copy_ok ==> *final(m) == (Member { sb: rebuilt, active: sb_write_ok, ..*old(m) }),
        !copy_ok ==> *final(m) == (Member { active: false, ..*old(m) }),
{
    if copy_ok {
        m.sb = rebuilt;
        m.active = sb_write_ok;
    } else {
        m.active = false;
    }
}

/// The members after the final generation bump of an assembly.
pub open spec fn bumped(s: Seq<Member>, newest: u64, complete: bool) -> Seq<Member> {
    Seq::new(
        s.len(),
        |i: int|
            if s[i].active {
                Member {
                    sb: Superblock {
                        generation: (newest + 1) as u64,
                        last_full_sync: if complete {
                            (newest + 1) as u64
                        } else {
                            s[i].sb.last_full_sync
                        },
                        ..s[i].sb
                    },
                    ..s[i]
                }
            } else {
                s[i]
            },
    )
}

/// Advances the active members to the generation after `newest`, so that a
/// member dropping out next is seen as stale. When the assembly is complete
/// (every member of the array present and active) this generation also
/// becomes the members' last full sync. Returns whether it is complete.
pub fn bump_generations(members: &mut Vec<Member>, newest: u64, member_count: u32) -> (complete:
    bool)
    requires
        newest < u64::MAX,
    ensures
        complete == (old(members)@.len() == member_count && count_active(old(members)@)
            == old(members)@.len()),
        final(members)@ == bumped(old(members)@, newest, complete),
{
    let n = members.len();
    let mut active: usize = 0;
    let mut i: usize = 0;
    while i < n
        invariant
            n == members.len(),
            i <= n,
            active == count_active(members@.take(i as int)),
        decreases n - i,
    {
        proof {
            lemma_count_active_bound(members@.take(i as int));
            assert(members@.take(i + 1).drop_last() =~= members@.take(i as int));
        }
        if members[i].active {
            active += 1;
        }
        i += 1;
    }
    assert(members@.take(n as int) =~= members@);
    let complete = n as u64 == member_count as u64 && active == n;
    let ghost start = members@;
    let g = newest + 1;
    let mut k: usize = 0;
    while k < n
        invariant
            n == members.len(),
            start.len() == n,
            g == newest + 1,
            k <= n,
            forall|j: int| 0 <= j < k ==> members@[j] == bumped(start, newest, complete)[j],
            forall|j: int| k <= j < n ==> members@[j] == start[j],
        decreases n - k,
    {
        let mut m = members[k];
        if m.active {
            m.sb.generation = g;
            if complete {
                m.sb.last_full_sync = g;
            }
        }
        members.set(k, m);
        k += 1;
    }
    assert(members@ =~= bumped(start, newest, complete));
    complete
}

/// The members are in ascending order of member index.
pub open spec fn sorted_by_index(s: Seq<Member>) -> bool {
    forall|i: int, j: int| 0 <= i < j < s.len() ==> s[i].sb.member_index <= s[j].sb.member_index
}

/// The members of `s` with member index `v`, in their order in `s`.
pub open spec fn with_index(s: Seq<Member>, v: u32) -> Seq<Member> {
    s.filter(|m: Member| m.sb.member_index == v)
}

proof fn lemma_with_index_none(s: Seq<Member>, v: u32)
    requires
        forall|j: int| 0 <= j < s.len() ==> s[j].sb.member_index != v,
    ensures
        with_index(s, v) == Seq::<Member>::empty(),
    decreases s.len(),
{
    reveal(Seq::filter);
    if s.len() > 0 {
        lemma_with_index_none(s.drop_last(), v);
    }
}

proof fn lemma_with_index_one(m: Member, v: u32)
    ensures
        with_index(seq![m], v) == (if m.sb.member_index == v { seq![m] } else { Seq::<Member>::empty() }),
{
    reveal(Seq::filter);
    assert(seq![m].drop_last() =~= Seq::<Member>::empty());
    lemma_with_index_none(Seq::<Member>::empty(), v);
    assert(Seq::<Member>::empty().push(m) =~= seq![m]);
}

/// Orders the members by member index; members with equal indices keep
/// their relative order.
pub fn sort_by_member_index(members: Vec<Member>) -> (r: Vec<Member>)
    ensures
        sorted_by_index(r@),
        r@.to_multiset() == members@.to_multiset(),
        forall|v: u32| #[trigger] with_index(r@, v) == with_index(members@, v),
{
    broadcast use vstd::multiset::group_multiset_axioms;
    let mut rest = members;
    let ghost orig = rest@;
    let mut out: Vec<Member> = Vec::new();
    proof {
        vstd::seq_lib::to_multiset_len(out@);
        vstd::multiset::lemma_multiset_empty_len(out@.to_multiset());
        assert(out@.to_multiset().add(rest@.to_multiset()) =~= orig.to_multiset());
        assert forall|v: u32| #[trigger] with_index(orig, v) == with_index(out@, v) + with_index(rest@, v) by {
            lemma_with_index_none(out@, v);
            assert(with_index(out@, v) + with_index(rest@, v) =~= with_index(rest@, v));
        }
    }
    while rest.len() > 0
        invariant
            sorted_by_index(out@),
            forall|i: int, j: int|
                0 <= i < out@.len() && 0 <= j < rest@.len() ==> out@[i].sb.member_index
                    <= rest@[j].sb.member_index,
            out@.to_multiset().add(rest@.to_multiset()) == orig.to_multiset(),
            forall|v: u32| #[trigger] with_index(orig, v) == with_index(out@, v) + with_index(rest@, v),
        decreases rest.len(),
    {
        let mut best: usize = 0;
        let mut k: usize = 1;
        while k < rest.len()
            invariant
                rest.len() > 0,
                best < rest.len(),
                1 <= k <= rest.len(),
                forall|j: int| 0 <= j < k ==> rest@[best as int].sb.member_index <= rest@[j].sb.member_index,
                forall|j: int| 0 <= j < best ==> rest@[best as int].sb.member_index < rest@[j].sb.member_index,
            decreases rest.len() - k,
        {
            if rest[k].sb.member_index < rest[best].sb.member_index {
                best = k;
            }
            k += 1;
        }
        let ghost before_rest = rest@;
        let ghost before_out = out@;
        let m = rest.remove(best);
        proof {
            before_rest.remove_ensures(best as int);
            vstd::seq_lib::to_multiset_remove(before_rest, best as int);
            vstd::seq_lib::to_multiset_build(before_out, m);
            vstd::seq_lib::to_multiset_contains(before_rest, m);
            assert(before_rest.contains(m)) by {
                assert(before_rest[best as int] == m);
            }
        }
        out.push(m);
        proof {
            assert(out@.to_multiset().add(rest@.to_multiset()) =~= orig.to_multiset());
            let a = before_rest.take(best as int);
            let b = before_rest.skip(best + 1);
            assert(before_rest =~= a + seq![m] + b);
            assert(rest@ =~= a + b);
            assert(out@ =~= before_out + seq![m]);
            assert forall|v: u32| #[trigger] with_index(orig, v) == with_index(out@, v) + with_index(rest@, v) by {
                Seq::filter_distributes_over_add(a + seq![m], b, |x: Member| x.sb.member_index == v);
                Seq::filter_distributes_over_add(a, seq![m], |x: Member| x.sb.member_index == v);
                Seq::filter_distributes_over_add(a, b, |x: Member| x.sb.member_index == v);
                Seq::filter_distributes_over_add(before_out, seq![m], |x: Member| x.sb.member_index == v);
                lemma_with_index_one(m, v);
                if m.sb.member_index == v {
                    assert forall|j: int| 0 <= j < a.len() implies a[j].sb.member_index != v by {
                        assert(a[j] == before_rest[j]);
                    }
                    lemma_with_index_none(a, v);
                }
                assert(with_index(before_rest, v) == with_index(a, v) + with_index(seq![m], v) + with_index(b, v));
                assert(with_index(rest@, v) == with_index(a, v) + with_index(b, v));
                assert(with_index(out@, v) == with_index(before_out, v) + with_index(seq![m], v));
                assert(with_index(out@, v) + with_index(rest@, v) =~= with_index(before_out, v) + with_index(before_rest, v));
            }
        }
    }
    proof {
        vstd::seq_lib::to_multiset_len(rest@);
        vstd::multiset::lemma_multiset_empty_len(rest@.to_multiset());
        assert(out@.to_multiset() =~= out@.to_multiset().add(rest@.to_multiset()));
        assert forall|v: u32| #[trigger] with_index(out@, v) == with_index(members@, v) by {
            lemma_with_index_none(rest@, v);
            assert(with_index(out@, v) + with_index(rest@, v) =~= with_index(out@, v));
        }
    }
    out
}

/// Some member is active.
pub open spec fn has_active(s: Seq<Member>) -> bool {
    exists|i: int| 0 <= i < s.len() && s[i].active
}

/// `p` is the position of the first active member, or 0 when none is.
pub open spec fn is_first_active(s: Seq<Member>, p: int) -> bool {
    if has_active(s) {
        0 <= p < s.len() && s[p].active && forall|j: int| 0 <= j < p ==> !s[j].active
    } else {
        p == 0
    }
}

/// Position of the first active member, or 0 when none is active.
pub fn first_active(members: &Vec<Member>) -> (p: usize)
    ensures
        is_first_active(members@, p as int),
{
    let mut i: usize = 0;
    while i < members.len()
        invariant
            i <= members.len(),
            forall|j: int| 0 <= j < i ==> !members@[j].active,
        decreases members.len() - i,
    {
        if members[i].active {
            return i;
        }
        i += 1;
    }
    0
}

/// Completes the assembly once the rebuilds are done: bumps the
/// generations, orders the members by member index, picks the first active
/// one as primary and takes the array's geometry from the source.
/// Returns the disk and whether the assembly is complete.
pub fn finish_assembly(members: Vec<Member>, plan: &AssemblyPlan, source: &Superblock) -> (r: (
    Raid1Disk,
    bool,
))
    requires
        plan.newest < u64::MAX,
    ensures
        r.1 == (members@.len() == plan.member_count && count_active(members@) == members@.len()),
        r.0.members@.to_multiset() == bumped(members@, plan.newest, r.1).to_multiset(),
        sorted_by_index(r.0.members@),
        is_first_active(r.0.members@, r.0.primary as int),
        r.0.usable_bytes == source.usable_bytes,
        r.0.block_size == source.block_size,
{
    let mut members = members;
    let complete = bump_generations(&mut members, plan.newest, plan.member_count);
    let sorted = sort_by_member_index(members);
    let primary = first_active(&sorted);
    (
        Raid1Disk {
            members: sorted,
            primary,
            usable_bytes: source.usable_bytes,
            block_size: source.block_size,
        },
        complete,
    )
}

proof fn lemma_max_active_gen_uniform(s: Seq<Member>, g: u64)
    requires
        forall|i: int| 0 <= i < s.len() && (#[trigger] s[i]).active ==> s[i].sb.generation == g,
    ensures
        count_active(s) > 0 ==> max_active_gen(s) == g,
        count_active(s) == 0 ==> max_active_gen(s) == 0,
    decreases s.len(),
{
    if s.len() > 0 {
        assert forall|i: int| 0 <= i < s.drop_last().len() && (#[trigger] s.drop_last()[i]).active implies s.drop_last()[i].sb.generation == g by {
            assert(s.drop_last()[i] == s[i]);
        }
        lemma_max_active_gen_uniform(s.drop_last(), g);
    }
}

/// A write that some active member failed leaves every member still in the
/// array a generation ahead of the members it dropped, when the active
/// members were at one generation (as an assembly leaves them): the next
/// assembly sees a dropped member as stale and rebuilds it.
pub proof fn lemma_write_leaves_dropped_stale(members: Seq<Member>, ok: Seq<bool>, g: u64)
    requires
        ok.len() == members.len(),
        forall|i: int| 0 <= i < members.len() && (#[trigger] members[i]).active ==> members[i].sb.generation == g,
        count_active(survivors(members, ok)) > 0,
        count_active(survivors(members, ok)) < count_active(members),
        g < u64::MAX,
    ensures
        forall|i: int, j: int|
            0 <= i < members.len() && 0 <= j < members.len() && (#[trigger] after_write(members, ok)[i]).active
                && members[j].active && !ok[j] ==> after_write(members, ok)[i].sb.generation > #[trigger] members[j].sb.generation,
{
    let sv = survivors(members, ok);
    assert forall|i: int| 0 <= i < sv.len() && (#[trigger] sv[i]).active implies sv[i].sb.generation == g by {
        assert(sv[i].sb == members[i].sb);
    }
    lemma_max_active_gen_uniform(sv, g);
    assert(max_active_gen(sv) == g);
    let aw = after_write(members, ok);
    assert forall|i: int, j: int|
        0 <= i < members.len() && 0 <= j < members.len() && (#[trigger] aw[i]).active
            && members[j].active && !ok[j] implies aw[i].sb.generation > #[trigger] members[j].sb.generation by {
        assert(sv[i].active);
        assert(aw[i].sb.generation == g + 1);
    }
}

/// The lowercase hexadecimal digit for `d` (below 16).
pub open spec fn hex_digit(d: u8) -> char {
    if d < 10 { (('0' as u8) + d) as char } else { (('a' as u8) + d - 10) as char }
}

/// The bytes `b` in lowercase hexadecimal, two digits each.
pub open spec fn spec_hex(b: Seq<u8>) -> Seq<char>
    decreases b.len(),
{
    if b.len() == 0 {
        Seq::empty()
    } else {
        spec_hex(b.drop_last()) + seq![hex_digit(b.last() / 16), hex_digit(b.last() % 16)]
    }
}

fn digit_str(d: u8) -> (s: &'static str)
    requires
        d < 16,
    ensures
        s@ == seq![hex_digit(d)],
{
    proof {
        reveal_strlit("0");
        reveal_strlit("1");
        reveal_strlit("2");
        reveal_strlit("3");
        reveal_strlit("4");
        reveal_strlit("5");
        reveal_strlit("6");
        reveal_strlit("7");
        reveal_strlit("8");
        reveal_strlit("9");
        reveal_strlit("a");
        reveal_strlit("b");
        reveal_strlit("c");
        reveal_strlit("d");
        reveal_strlit("e");
        reveal_strlit("f");
    }
    let r = if d == 0 { "0" } else if d == 1 { "1" } else if d == 2 { "2" } else if d == 3 { "3" }
        else if d == 4 { "4" } else if d == 5 { "5" } else if d == 6 { "6" } else if d == 7 { "7" }
        else if d == 8 { "8" } else if d == 9 { "9" } else if d == 10 { "a" } else if d == 11 { "b" }
        else if d == 12 { "c" } else if d == 13 { "d" } else if d == 14 { "e" } else { "f" };
    assert(r@ =~= seq![hex_digit(d)]);
    r
}

/// `bytes` in lowercase hexadecimal, two digits each.
pub fn hex(bytes: &[u8]) -> (s: String)
    ensures
        s@ == spec_hex(bytes@),
{
    let mut s = String::new();
    let mut i: usize = 0;
    while i < bytes.len()
        invariant
            i <= bytes@.len(),
            s@ == spec_hex(bytes@.take(i as int)),
        decreases bytes.len() - i,
    {
        let b = bytes[i];
        s.append(digit_str(b / 16));
        s.append(digit_str(b % 16));
        proof {
            assert(bytes@.take(i + 1).drop_last() =~= bytes@.take(i as int));
        }
        i += 1;
        assert(s@ =~= spec_hex(bytes@.take(i as int)));
    }
    assert(bytes@.take(bytes@.len() as int) =~= bytes@);
    s
}

/// The seed of a new array's identity when the clock is unreadable.
pub const UUID_FALLBACK_NANOS: u64 = 0x9E37_79B9;

/// One step of the SplitMix64 finaliser.
pub open spec fn mix(z: u64) -> u64 {
    let a = ((((z ^ (z >> 30u64)) as int) * 0xBF58_476D_1CE4_E5B9) % 0x1_0000_0000_0000_0000) as u64;
    let b = ((((a ^ (a >> 27u64)) as int) * 0x94D0_49BB_1331_11EB) % 0x1_0000_0000_0000_0000) as u64;
    b ^ (b >> 31u64)
}

/// The seed of a new array's identity: the clock in nanoseconds (a
/// constant when unreadable) mixed with the process number.
pub open spec fn uuid_seed(nanos: Option<u64>, pid: u32) -> u64 {
    let n = match nanos {
        Some(n) => n,
        None => UUID_FALLBACK_NANOS,
    };
    n ^ (((pid as u64) << 32u64) as u64) ^ 0xA076_1D64_78BD_642F
}

/// The eight bytes of `z`, least significant first.
pub open spec fn le8(z: u64) -> Seq<u8> {
    Seq::new(8, |k: int| ((z >> ((8 * k) as u64)) % 256) as u8)
}

/// A new array's identity: two SplitMix64 outputs from the seed, as
/// little-endian bytes.
pub open spec fn spec_uuid(nanos: Option<u64>, pid: u32) -> Seq<u8> {
    let z1 = mix(uuid_seed(nanos, pid));
    let z2 = mix(z1);
    le8(z1) + le8(z2)
}

fn mix_step(z: u64) -> (r: u64)
    ensures
        r == mix(z),
{
    let a = (z ^ (z >> 30)).wrapping_mul(0xBF58_476D_1CE4_E5B9);
    let b = (a ^ (a >> 27)).wrapping_mul(0x94D0_49BB_1331_11EB);
    b ^ (b >> 31)
}

fn push_le8(out: &mut Vec<u8>, z: u64)
    ensures
        final(out)@ == old(out)@ + le8(z),
{
    let mut k: u64 = 0;
    let ghost start = out@;
    while k < 8
        invariant
            k <= 8,
            out@ == start + le8(z).take(k as int),
        decreases 8 - k,
    {
        out.push(((z >> (8 * k)) % 256) as u8);
        k += 1;
        assert(out@ =~= start + le8(z).take(k as int));
    }
    assert(le8(z).take(8) =~= le8(z));
}

/// The identity of a new array from the clock reading `nanos` (None when
/// the clock cannot be read) and the process number `pid`.
pub fn make_uuid(nanos: Option<u64>, pid: u32) -> (u: [u8; 16])
    ensures
        u@ == spec_uuid(nanos, pid),
{
    let n = match nanos {
        Some(n) => n,
        None => UUID_FALLBACK_NANOS,
    };
    let seed = n ^ ((pid as u64) << 32) ^ 0xA076_1D64_78BD_642F;
    let z1 = mix_step(seed);
    let z2 = mix_step(z1);
    let mut v: Vec<u8> = Vec::new();
    push_le8(&mut v, z1);
    push_le8(&mut v, z2);
    let u: [u8; 16] = [v[0], v[1], v[2], v[3], v[4], v[5], v[6], v[7], v[8], v[9], v[10], v[11], v[12], v[13], v[14], v[15]];
    assert(u@ =~= spec_uuid(nanos, pid));
    u
}

/// Why a new array cannot be created.
#[derive(Debug, Clone, Copy, PartialEq, Eq, Structural)]
pub enum CreateError {
    /// A member is smaller than two superblock blocks.
    MemberTooSmall,
}

/// The usable size of a new mirror on members of `a_size` and `b_size`
/// bytes: the data area of the smaller one. Members smaller than two
/// superblock blocks are refused.
pub fn create_usable(a_size: u64, b_size: u64) -> (r: Result<u64, CreateError>)
    ensures
        a_size < 2 * SB_SIZE || b_size < 2 * SB_SIZE ==> r == Err::<u64, CreateError>(CreateError::MemberTooSmall),
        a_size >= 2 * SB_SIZE && b_size >= 2 * SB_SIZE ==> r == Ok::<u64, CreateError>(
            if spec_sb_offset(a_size) <= spec_sb_offset(b_size) { spec_sb_offset(a_size) as u64 } else { spec_sb_offset(b_size) as u64 },
        ),
{
    if a_size < 2 * SB_SIZE || b_size < 2 * SB_SIZE {
        return Err(CreateError::MemberTooSmall);
    }
    let a = sb_offset(a_size);
    let b = sb_offset(b_size);
    Ok(if a <= b { a } else { b })
}

/// The superblock of member `index` of a new two-member array: generation
/// 1, fully synced at 1, 512-byte blocks.
pub fn new_member_superblock(uuid: [u8; 16], usable: u64, index: u32) -> (sb: Superblock)
    ensures
        sb.array_uuid == uuid,
        sb.member_index == index,
        sb.generation == 1,
        sb.usable_bytes == usable,
        sb.block_size == 512,
        sb.last_full_sync == 1,
        sb.member_count == 2,
{
    Superblock {
        array_uuid: uuid,
        member_index: index,
        generation: 1,
        usable_bytes: usable,
        block_size: 512,
        last_full_sync: 1,
        member_count: 2,
    }
}

/// The size of one copy step of a resync.
pub const RESYNC_CHUNK: u64 = 1024 * 1024;

/// How many bytes the resync copies next at `off` of `usable` bytes.
pub fn resync_chunk(off: u64, usable: u64) -> (n: u64)
    requires
        off < usable,
    ensures
        n == if usable - off <= RESYNC_CHUNK { usable - off } else { RESYNC_CHUNK as int },
        0 < n <= RESYNC_CHUNK,
{
    let rest = usable - off;
    if rest <= RESYNC_CHUNK { rest } else { RESYNC_CHUNK }
}

/// The progress to report once `off` of `usable` bytes are copied, when it
/// is at least 25 points past the last one reported.
pub fn resync_progress(off: u64, usable: u64, last_pct: u64) -> (r: Option<u64>)
    requires
        usable > 0,
        off * 100 <= u64::MAX,
        last_pct + 25 <= u64::MAX,
    ensures
        r == (if (off * 100) / (usable as int) >= last_pct + 25 { Some(((off * 100) / (usable as int)) as u64) } else { None::<u64> }),
{
    let pct = off * 100 / usable;
    if pct >= last_pct + 25 { Some(pct) } else { None }
}

/// Whether an array with `active` working members out of `member_count`
/// is optimal: all there, and at least two.
pub fn array_optimal(active: usize, member_count: usize) -> (r: bool)
    ensures
        r == (active == member_count && active >= 2),
{
    active == member_count && active >= 2
}

/// A scheme whose disks may hold members: a `disk.` scheme other than the
/// mirror's own and the live disk, by its name with white space trimmed.
pub open spec fn member_scheme(name: Seq<char>) -> bool {
    let n = trim(name);
    &&& n.len() >= 5 && n.take(5) == "disk."@
    &&& n != "disk.raid1"@
    &&& n != "disk.live"@
}

/// Whether the scheme `name` may hold members.
pub fn is_member_scheme(name: &[char]) -> (r: bool)
    ensures
        r == member_scheme(name@),
{
    let n = trim_chars(name);
    if n.len() < 5 {
        return false;
    }
    let head = n.as_slice().split_at(5).0;
    assert(head@ == n@.take(5));
    chars_is(head, "disk.") && !chars_is(n.as_slice(), "disk.raid1") && !chars_is(n.as_slice(), "disk.live")
}

/// A disk entry that is a whole disk: its trimmed name is not empty and
/// has no `p` (partitions are named with one).
pub open spec fn whole_disk(entry: Seq<char>) -> bool {
    let e = trim(entry);
    e.len() > 0 && !e.contains('p')
}

/// Whether the disk entry `entry` is a whole disk.
pub fn is_whole_disk(entry: &[char]) -> (r: bool)
    ensures
        r == whole_disk(entry@),
{
    let e = trim_chars(entry);
    if e.len() == 0 {
        return false;
    }
    let mut i: usize = 0;
    while i < e.len()
        invariant
            i <= e@.len(),
            e@ == trim(entry@),
            forall|k: int| 0 <= k < i ==> e@[k] != 'p',
        decreases e.len() - i,
    {
        if e[i] == 'p' {
            assert(e@[i as int] == 'p');
            assert(e@.contains('p'));
            return false;
        }
        i += 1;
    }
    true
}

} // verus!
