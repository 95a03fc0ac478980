//! Console fonts from PC Screen Font (version 2) files, read with the
//! `psf-rs` crate: the conditions under which it reads a file, and the font
//! built from the pixels it gives.

use vstd::prelude::*;
use crate::console_draw::{place_glyphs, ConsoleFont, GlyphPixel};

verus! {

/// The four bytes at `off` read little-endian.
pub open spec fn le32_at(b: Seq<u8>, off: int) -> int {
    b[off] + b[off + 1] * 0x100 + b[off + 2] * 0x1_0000 + b[off + 3] * 0x100_0000
}

/// The header size a font file gives.
pub open spec fn psf_header_size(b: Seq<u8>) -> int {
    le32_at(b, 0x8)
}

/// The number of glyphs a font file gives.
pub open spec fn psf_length(b: Seq<u8>) -> int {
    le32_at(b, 0x10)
}

/// The size in bytes of each glyph a font file gives.
pub open spec fn psf_glyph_size(b: Seq<u8>) -> int {
    le32_at(b, 0x14)
}

/// The glyph height a font file gives.
pub open spec fn psf_height(b: Seq<u8>) -> int {
    le32_at(b, 0x18)
}

/// The glyph width a font file gives.
pub open spec fn psf_width(b: Seq<u8>) -> int {
    le32_at(b, 0x1c)
}

/// The font file says it has a unicode table.
pub open spec fn psf_unicode(b: Seq<u8>) -> bool {
    b[0xc] == 1
}

/// The magic bytes of a version 2 font file.
pub open spec fn psf_magic(b: Seq<u8>) -> bool {
    b[0] == 0x72 && b[1] == 0xb5 && b[2] == 0x4a && b[3] == 0x86
}

/// The unicode table: the bytes after the first `glyph_size * length` bytes
/// of the file (where `psf-rs` reads it).
pub open spec fn psf_table(b: Seq<u8>) -> Seq<u8> {
    b.subrange(psf_glyph_size(b) * psf_length(b), b.len() as int)
}

/// The length of the UTF-8 sequence a table byte starts, as `psf-rs` reads
/// it from the byte's high four bits.
pub open spec fn lead_len(byte: u8) -> int {
    let hi = byte / 16;
    if hi == 0xc || hi == 0xd {
        2
    } else if hi == 0xe {
        3
    } else if hi == 0xf {
        4
    } else {
        1
    }
}

/// No separator byte 0xFF in `t[a..b)`.
pub open spec fn no_sep(t: Seq<u8>, a: int, b: int) -> bool {
    forall|k: int| a <= k < b ==> t[k] != 0xFFu8
}

/// Walking the table from `p`, every sequence lies inside its entry (the
/// entries are separated by 0xFF).
pub open spec fn table_ok(t: Seq<u8>, p: int) -> bool
    decreases t.len() - p,
{
    if p < 0 || p >= t.len() {
        true
    } else if t[p] == 0xFFu8 {
        table_ok(t, p + 1)
    } else {
        let l = lead_len(t[p]);
        proof {
            assert(l >= 1);
        }
        p + l <= t.len() && no_sep(t, p + 1, p + l) && table_ok(t, p + l)
    }
}

/// The four-byte key of the `l`-byte sequence at `p`, padded with zeros.
pub open spec fn key_at(t: Seq<u8>, p: int, l: int) -> Seq<u8> {
    Seq::new(4, |q: int| if q < l { t[p + q] } else { 0u8 })
}

/// The keys of the table from `p`, each with the entry it is in (counting
/// entries from `e`), in order.
pub open spec fn table_keys(t: Seq<u8>, p: int, e: int) -> Seq<(Seq<u8>, int)>
    decreases t.len() - p,
{
    if p < 0 || p >= t.len() {
        Seq::empty()
    } else if t[p] == 0xFFu8 {
        table_keys(t, p + 1, e + 1)
    } else {
        let l = lead_len(t[p]);
        proof {
            assert(l >= 1);
        }
        if p + l > t.len() {
            seq![(key_at(t, p, l), e)]
        } else {
            seq![(key_at(t, p, l), e)] + table_keys(t, p + l, e)
        }
    }
}

/// The number of different keys among `ks`.
pub open spec fn distinct_keys(ks: Seq<(Seq<u8>, int)>) -> int
    decreases ks.len(),
{
    if ks.len() == 0 {
        0
    } else {
        let prev = ks.drop_last();
        distinct_keys(prev) + if exists|j: int| 0 <= j < prev.len() && prev[j].0 == ks.last().0 { 0int } else { 1int }
    }
}

/// The entry of the last key `k` among `ks`, if any (a later entry
/// replaces an earlier one).
pub open spec fn last_entry(ks: Seq<(Seq<u8>, int)>, k: Seq<u8>) -> Option<int>
    decreases ks.len(),
{
    if ks.len() == 0 {
        None
    } else if ks.last().0 == k {
        Some(ks.last().1)
    } else {
        last_entry(ks.drop_last(), k)
    }
}

/// `i` is the code of a `char`.
pub open spec fn valid_char(i: int) -> bool {
    (0 <= i < 0xD800) || (0xE000 <= i <= 0x10FFFF)
}

/// The UTF-8 encoding of the character with code `i` (128 or more), padded
/// with zeros to four bytes.
pub open spec fn utf8_key(i: int) -> Seq<u8> {
    if i < 0x800 {
        seq![(0xC0 + i / 64) as u8, (0x80 + i % 64) as u8, 0u8, 0u8]
    } else if i < 0x1_0000 {
        seq![(0xE0 + i / 4096) as u8, (0x80 + (i / 64) % 64) as u8, (0x80 + i % 64) as u8, 0u8]
    } else {
        seq![(0xF0 + i / 262144) as u8, (0x80 + (i / 4096) % 64) as u8, (0x80 + (i / 64) % 64) as u8, (0x80 + i % 64) as u8]
    }
}

/// The glyph `psf-rs` draws for the character with code `i`: the glyph
/// with that number, unless the font has a unicode table and the code is
/// 128 or more: then the entry of the table holding the character's UTF-8
/// bytes last, or glyph 63 (`?`) when none does.
pub open spec fn glyph_of(b: Seq<u8>, i: int) -> int {
    if !psf_unicode(b) || i < 128 {
        i
    } else {
        match last_entry(table_keys(psf_table(b), 0, 0), utf8_key(i)) {
            Some(e) => (e as u32) as int,
            None => 63,
        }
    }
}

/// The glyph drawn for the character with code `i` lies inside the file
/// (and the number after it is still a `u32`).
pub open spec fn glyph_fits(b: Seq<u8>, i: int) -> bool {
    let g = glyph_of(b, i);
    &&& g < u32::MAX
    &&& psf_glyph_size(b) * (g + 1) <= u32::MAX
    &&& psf_header_size(b) + psf_glyph_size(b) * (g + 1) <= b.len()
}

/// `psf-rs` loads the font file `b` and draws each of its glyphs without
/// panicking: a complete header with the magic bytes, a header size and
/// glyph data within the file (the data's size within `u32`), a unicode
/// table whose sequences stay inside their entries and that holds at most
/// 1024 different keys, glyph rows of a width it can split (not zero,
/// and at most 256 pixels unless glyphs are at most 32 bytes), and the glyph
/// drawn for each character inside the file.
pub open spec fn psf_loads(b: Seq<u8>) -> bool {
    &&& b.len() >= 32
    &&& psf_magic(b)
    &&& psf_header_size(b) <= b.len()
    &&& psf_glyph_size(b) * psf_length(b) <= u32::MAX
    &&& psf_glyph_size(b) * psf_length(b) <= b.len()
    &&& table_ok(psf_table(b), 0)
    &&& distinct_keys(table_keys(psf_table(b), 0, 0)) <= 1024
    &&& psf_length(b) >= 1 ==> {
        &&& psf_width(b) >= 1
        &&& psf_width(b) + 7 <= usize::MAX
        &&& (psf_width(b) <= 256 || psf_glyph_size(b) <= 32)
    }
    &&& forall|i: int| 0 <= i < psf_length(b) && valid_char(i) ==> #[trigger] glyph_fits(b, i)
}

/// A font read by `psf-rs`.
#[verifier::external_type_specification]
#[verifier::external_body]
pub struct ExPsfFont<'a>(psf_rs::Font<'a>);

/// The font file a `psf_rs::Font` reads its header, glyph bitmaps and
/// unicode table from.
pub uninterp spec fn psf_font_file(font: psf_rs::Font) -> Seq<u8>;

/// Reads the font file `data` with `psf_rs::Font::load`, which panics
/// unless the file passes `psf_loads`; the font reads `data`.
#[verifier::external_body]
fn psf_load<'a>(data: &'a [u8]) -> (font: psf_rs::Font<'a>)
    requires
        psf_loads(data@),
    ensures
        psf_font_file(font) == data@,
{
    psf_rs::Font::load(data)
}

/// The pixels `psf-rs` draws for the character with code `code` of the
/// font file `b`, in the order it draws them.
pub uninterp spec fn psf_glyph(b: Seq<u8>, code: u32) -> Seq<GlyphPixel>;

/// Draws the glyph of the character `c` with `psf_rs::Font::display_glyph`,
/// collecting the pixels it reports, in order. It does not panic for a
/// character whose code is below the number of glyphs of a file that
/// passes `psf_loads`.
#[verifier::external_body]
fn psf_display_glyph(font: &psf_rs::Font, c: char) -> (pixels: Vec<GlyphPixel>)
    requires
        psf_loads(psf_font_file(*font)),
        (c as u32) < psf_length(psf_font_file(*font)),
    ensures
        pixels@ == psf_glyph(psf_font_file(*font), c as u32),
{
    let mut pixels: Vec<GlyphPixel> = Vec::new();
    font.display_glyph(c, |bit, x, y| pixels.push(GlyphPixel { bit, x, y }));
    pixels
}

/// The character with code `i` (`char::from_u32`): none exactly when `i`
/// is a surrogate or past `0x10FFFF`.
#[verifier::external_body]
fn char_of(i: u32) -> (r: Option<char>)
    ensures
        r is Some <==> valid_char(i as int),
        r matches Some(c) ==> c as u32 == i,
{
    char::from_u32(i)
}

/// The pixels `psf-rs` draws for each glyph of the font file `b`, glyph
/// `i` being the character with code `i` (none for a code that is not a
/// character).
pub open spec fn psf_glyphs(b: Seq<u8>) -> Seq<Seq<GlyphPixel>> {
    Seq::new(psf_length(b) as nat, |i: int| if valid_char(i) { psf_glyph(b, i as u32) } else { Seq::empty() })
}

/// Draws every glyph of the font file `data` with `psf-rs`: for each code
/// below the number of glyphs, the pixels of its character, or none when
/// the code is not a character.
fn psf_glyph_pixels(data: &[u8]) -> (r: Vec<Vec<GlyphPixel>>)
    requires
        psf_loads(data@),
    ensures
        r@.len() == psf_length(data@),
        forall|i: int| 0 <= i < r@.len() ==> (#[trigger] r@[i])@ == psf_glyphs(data@)[i],
{
    let font = psf_load(data);
    let n = read_le32(data, 0x10);
    let mut glyphs: Vec<Vec<GlyphPixel>> = Vec::new();
    let mut i: u32 = 0;
    while i < n
        invariant
            psf_font_file(font) == data@,
            psf_loads(data@),
            n == psf_length(data@),
            i <= n,
            glyphs@.len() == i,
            forall|j: int| 0 <= j < i ==> (#[trigger] glyphs@[j])@ == psf_glyphs(data@)[j],
        decreases n - i,
    {
        let pixels = match char_of(i) {
            Some(c) => psf_display_glyph(&font, c),
            None => Vec::new(),
        };
        glyphs.push(pixels);
        i += 1;
    }
    glyphs
}

/// The bytes per glyph row of a font `w` pixels wide.
pub open spec fn row_bytes(w: int) -> int {
    (w + 7) / 8
}

/// The font's bitmap has a size the machine can hold.
pub open spec fn psf_size_fits(b: Seq<u8>) -> bool {
    &&& psf_width(b) + 7 <= usize::MAX
    &&& psf_length(b) * psf_height(b) <= usize::MAX
    &&& psf_length(b) * psf_height(b) * row_bytes(psf_width(b)) <= isize::MAX
}

/// The table keys, each with its entry, as plain values.
pub open spec fn keys_view(ks: Seq<([u8; 4], usize)>) -> Seq<(Seq<u8>, int)> {
    Seq::new(ks.len(), |k: int| (ks[k].0@, ks[k].1 as int))
}

fn read_le32(b: &[u8], off: usize) -> (r: u32)
    requires
        off + 4 <= b@.len(),
    ensures
        r == le32_at(b@, off as int),
{
    b[off] as u32 + b[off + 1] as u32 * 0x100 + b[off + 2] as u32 * 0x1_0000 + b[off + 3] as u32 * 0x100_0000
}

fn lead_len_of(b: u8) -> (l: usize)
    ensures
        l == lead_len(b),
{
    let hi = b / 16;
    if hi == 0xc || hi == 0xd {
        2
    } else if hi == 0xe {
        3
    } else if hi == 0xf {
        4
    } else {
        1
    }
}

/// Walks the unicode table `data[start..]`: none when a sequence runs past
/// its entry, else the keys with their entries, in order.
fn walk_table(data: &[u8], start: usize) -> (r: Option<Vec<([u8; 4], usize)>>)
    requires
        start <= data@.len(),
    ensures
        r is Some <==> table_ok(data@.subrange(start as int, data@.len() as int), 0),
        r matches Some(ks) ==> keys_view(ks@) == table_keys(data@.subrange(start as int, data@.len() as int), 0, 0),
{
    let ghost t = data@.subrange(start as int, data@.len() as int);
    let n = data.len();
    let mut p: usize = start;
    let mut e: usize = 0;
    let mut ks: Vec<([u8; 4], usize)> = Vec::new();
    while p < n
        invariant
            start <= p <= n,
            n == data@.len(),
            t == data@.subrange(start as int, n as int),
            e <= p - start,
            table_ok(t, 0) == table_ok(t, p - start),
            keys_view(ks@) + table_keys(t, p - start, e as int) == table_keys(t, 0, 0),
        decreases n - p,
    {
        let ghost q0 = p - start;
        let b = data[p];
        assert(t[q0] == b);
        if b == 0xFF {
            p += 1;
            e += 1;
        } else {
            let l = lead_len_of(b);
            if l > n - p {
                assert(!table_ok(t, q0));
                return None;
            }
            let mut q: usize = 1;
            while q < l
                invariant
                    1 <= q <= l,
                    l <= 4,
                    start <= p < n,
                    p + l <= n,
                    b == data@[p as int],
                    l == lead_len(b),
                    b != 0xFFu8,
                    table_ok(t, 0) == table_ok(t, q0),
                    n == data@.len(),
                    t == data@.subrange(start as int, n as int),
                    q0 == p - start,
                    forall|k: int| q0 + 1 <= k < q0 + q ==> t[k] != 0xFFu8,
                decreases l - q,
            {
                if data[p + q] == 0xFF {
                    assert(t[q0 + q] == 0xFFu8);
                    assert(!no_sep(t, q0 + 1, q0 + l));
                    assert(!table_ok(t, q0));
                    return None;
                }
                q += 1;
            }
            assert(no_sep(t, q0 + 1, q0 + l));
            let key: [u8; 4] = [
                data[p],
                if l > 1 { data[p + 1] } else { 0 },
                if l > 2 { data[p + 2] } else { 0 },
                if l > 3 { data[p + 3] } else { 0 },
            ];
            assert(key@ =~= key_at(t, q0, l as int));
            let ghost before = ks@;
            ks.push((key, e));
            assert(keys_view(ks@) =~= keys_view(before) + seq![(key_at(t, q0, l as int), e as int)]);
            p += l;
        }
    }
    Some(ks)
}

fn key_eq(a: &[u8; 4], b: &[u8; 4]) -> (r: bool)
    ensures
        r == (a@ == b@),
{
    let r = a[0] == b[0] && a[1] == b[1] && a[2] == b[2] && a[3] == b[3];
    proof {
        if r {
            assert(a@ =~= b@);
        } else {
            assert(a@ != b@) by {
                if a@ == b@ {
                    assert(a@[0] == b@[0] && a@[1] == b@[1] && a@[2] == b@[2] && a@[3] == b@[3]);
                }
            }
        }
    }
    r
}

/// Some key in `seen` is `x`.
pub open spec fn seen_has(seen: Seq<[u8; 4]>, x: Seq<u8>) -> bool {
    exists|j: int| 0 <= j < seen.len() && seen[j]@ == x
}

/// Some of the first `k` keys is `x`.
pub open spec fn prefix_has(kv: Seq<(Seq<u8>, int)>, k: int, x: Seq<u8>) -> bool {
    exists|j: int| 0 <= j < k && kv[j].0 == x
}

/// The number of different keys among `ks`.
fn count_distinct(ks: &Vec<([u8; 4], usize)>) -> (r: usize)
    ensures
        r == distinct_keys(keys_view(ks@)),
{
    let ghost kv = keys_view(ks@);
    let mut seen: Vec<[u8; 4]> = Vec::new();
    let mut k: usize = 0;
    while k < ks.len()
        invariant
            kv == keys_view(ks@),
            k <= ks@.len(),
            seen@.len() <= k,
            seen@.len() == distinct_keys(kv.take(k as int)),
            forall|x: Seq<u8>| #![trigger seen_has(seen@, x)] #![trigger prefix_has(kv, k as int, x)] seen_has(seen@, x) <==> prefix_has(kv, k as int, x),
        decreases ks.len() - k,
    {
        let key = ks[k].0;
        let mut j: usize = 0;
        let mut found = false;
        while j < seen.len()
            invariant
                j <= seen@.len(),
                !found ==> forall|i: int| 0 <= i < j ==> seen@[i]@ != key@,
                found ==> exists|i: int| 0 <= i < seen@.len() && seen@[i]@ == key@,
            decreases seen.len() - j,
        {
            if key_eq(&seen[j], &key) {
                found = true;
            }
            j += 1;
        }
        proof {
            let prev = kv.take(k as int);
            assert(kv.take(k + 1).drop_last() =~= prev);
            assert(kv.take(k + 1).last().0 == key@);
            assert(kv[k as int].0 == key@);
            assert((exists|i: int| 0 <= i < prev.len() && prev[i].0 == key@) == found) by {
                if found {
                    assert(seen_has(seen@, key@));
                    assert(prefix_has(kv, k as int, key@));
                    let j = choose|j: int| 0 <= j < k && kv[j].0 == key@;
                    assert(prev[j].0 == key@);
                } else {
                    if exists|i: int| 0 <= i < prev.len() && prev[i].0 == key@ {
                        let i = choose|i: int| 0 <= i < prev.len() && prev[i].0 == key@;
                        assert(kv[i].0 == key@);
                        assert(prefix_has(kv, k as int, key@));
                        assert(seen_has(seen@, key@));
                    }
                }
            }
        }
        let ghost old_seen = seen@;
        if !found {
            seen.push(key);
        }
        proof {
            assert forall|x: Seq<u8>| #![trigger seen_has(seen@, x)] #![trigger prefix_has(kv, k + 1, x)] seen_has(seen@, x) <==> prefix_has(kv, k + 1, x) by {
                if prefix_has(kv, k + 1, x) {
                    let j = choose|j: int| 0 <= j < k + 1 && kv[j].0 == x;
                    if j < k {
                        assert(prefix_has(kv, k as int, x));
                        assert(seen_has(old_seen, x));
                        let i = choose|i: int| 0 <= i < old_seen.len() && old_seen[i]@ == x;
                        assert(seen@[i] == old_seen[i]);
                    } else {
                        if !found {
                            assert(seen@[seen@.len() - 1]@ == x);
                        } else {
                            let i = choose|i: int| 0 <= i < seen@.len() && seen@[i]@ == key@;
                            assert(seen@[i]@ == x);
                        }
                    }
                }
                if seen_has(seen@, x) {
                    let j = choose|j: int| 0 <= j < seen@.len() && seen@[j]@ == x;
                    if !found && j == seen@.len() - 1 {
                        assert(kv[k as int].0 == x);
                    } else {
                        assert(seen@[j] == old_seen[j]);
                        assert(seen_has(old_seen, x));
                        assert(prefix_has(kv, k as int, x));
                        let i = choose|i: int| 0 <= i < k && kv[i].0 == x;
                        assert(kv[i].0 == x);
                    }
                }
            }
            assert(seen@.len() == distinct_keys(kv.take(k + 1)));
        }
        k += 1;
    }
    assert(kv.take(ks@.len() as int) =~= kv);
    seen.len()
}

/// The entry of the last key `key` in `ks`, if any.
fn find_last(ks: &Vec<([u8; 4], usize)>, key: &[u8; 4]) -> (r: Option<usize>)
    ensures
        match r {
            Some(e) => last_entry(keys_view(ks@), key@) == Some(e as int),
            None => last_entry(keys_view(ks@), key@) is None,
        },
{
    let ghost kv = keys_view(ks@);
    let mut found: Option<usize> = None;
    let mut k: usize = 0;
    while k < ks.len()
        invariant
            kv == keys_view(ks@),
            k <= ks@.len(),
            match found {
                Some(e) => last_entry(kv.take(k as int), key@) == Some(e as int),
                None => last_entry(kv.take(k as int), key@) is None,
            },
        decreases ks.len() - k,
    {
        proof {
            assert(kv.take(k + 1).drop_last() =~= kv.take(k as int));
            assert(kv.take(k + 1).last() == kv[k as int]);
        }
        if key_eq(&ks[k].0, key) {
            found = Some(ks[k].1);
        }
        k += 1;
    }
    assert(kv.take(ks@.len() as int) =~= kv);
    found
}

/// The UTF-8 bytes of the character with code `i`, padded to four.
fn utf8_key_of(i: u32) -> (k: [u8; 4])
    requires
        128 <= i <= 0x10FFFF,
    ensures
        k@ == utf8_key(i as int),
{
    let k: [u8; 4] = if i < 0x800 {
        [(0xC0 + i / 64) as u8, (0x80 + i % 64) as u8, 0, 0]
    } else if i < 0x1_0000 {
        [(0xE0 + i / 4096) as u8, (0x80 + (i / 64) % 64) as u8, (0x80 + i % 64) as u8, 0]
    } else {
        [(0xF0 + i / 262144) as u8, (0x80 + (i / 4096) % 64) as u8, (0x80 + (i / 64) % 64) as u8, (0x80 + i % 64) as u8]
    };
    assert(k@ =~= utf8_key(i as int));
    k
}

/// Whether `psf-rs` loads the font file `data` and draws its glyphs
/// without panicking.
fn psf_file_loads(data: &[u8]) -> (r: bool)
    ensures
        r == psf_loads(data@),
{
    if data.len() < 32 {
        return false;
    }
    if !(data[0] == 0x72 && data[1] == 0xb5 && data[2] == 0x4a && data[3] == 0x86) {
        return false;
    }
    let hs = read_le32(data, 0x8);
    let n = read_le32(data, 0x10);
    let gs = read_le32(data, 0x14);
    let gw = read_le32(data, 0x1c);
    if hs as usize > data.len() {
        return false;
    }
    assert(gs as u64 * n as u64 <= 0xFFFF_FFFFu64 * 0xFFFF_FFFFu64) by (nonlinear_arith)
        requires gs <= 0xFFFF_FFFFu32, n <= 0xFFFF_FFFFu32;
    let total: u64 = gs as u64 * n as u64;
    if total > 0xFFFF_FFFFu64 {
        return false;
    }
    if total as usize > data.len() {
        return false;
    }
    let ks = match walk_table(data, total as usize) {
        Some(ks) => ks,
        None => return false,
    };
    if count_distinct(&ks) > 1024 {
        return false;
    }
    if n >= 1 {
        if gw == 0 || (gw as usize).checked_add(7).is_none() {
            return false;
        }
        if gw > 256 && gs > 32 {
            return false;
        }
    }
    let unicode = data[0xc] == 1;
    let mut i: u32 = 0;
    while i < n
        invariant
            data@.len() >= 32,
            hs == psf_header_size(data@),
            n == psf_length(data@),
            gs == psf_glyph_size(data@),
            unicode == psf_unicode(data@),
            keys_view(ks@) == table_keys(psf_table(data@), 0, 0),
            forall|j: int| 0 <= j < i && valid_char(j) ==> #[trigger] glyph_fits(data@, j),
        decreases n - i,
    {
        if i < 0xD800 || (0xE000 <= i && i <= 0x10FFFF) {
            let g: u32 = if !unicode || i < 128 {
                i
            } else {
                let key = utf8_key_of(i);
                match find_last(&ks, &key) {
                    Some(e) => #[verifier::truncate] (e as u32),
                    None => 63,
                }
            };
            assert(g == glyph_of(data@, i as int));
            if g == 0xFFFF_FFFFu32 {
                assert(!glyph_fits(data@, i as int));
                return false;
            }
            assert(gs as u64 * (g as u64 + 1) <= 0xFFFF_FFFFu64 * 0x1_0000_0000u64) by (nonlinear_arith)
                requires gs <= 0xFFFF_FFFFu32, g <= 0xFFFF_FFFFu32;
            let need: u64 = gs as u64 * (g as u64 + 1);
            if need > 0xFFFF_FFFFu64 {
                assert(!glyph_fits(data@, i as int));
                return false;
            }
            if hs as u64 + need > data.len() as u64 {
                assert(!glyph_fits(data@, i as int));
                return false;
            }
            assert(glyph_fits(data@, i as int));
        }
        i += 1;
    }
    true
}

impl ConsoleFont {
    /// The console font of a PC Screen Font file, as `psf-rs` reads it: each
    /// glyph takes `height` rows of `ceil(width / 8)` bytes holding the
    /// pixels `psf-rs` draws for it. None when `psf-rs` cannot read the file
    /// or draw its glyphs, or when the bitmap is too large for the machine.
    pub fn from_psf(data: &[u8]) -> (r: Option<ConsoleFont>)
        ensures
            r is Some <==> psf_loads(data@) && psf_size_fits(data@),
            r matches Some(f) ==> {
                let n = psf_length(data@);
                let h = psf_height(data@);
                let bpr = row_bytes(psf_width(data@));
                &&& f.width == psf_width(data@)
                &&& f.height == h
                &&& f.glyphs@ == place_glyphs(Seq::new((n * h * bpr) as nat, |i: int| 0u8), h, bpr, psf_glyphs(data@).take(n))
            },
    {
        if !psf_file_loads(data) {
            return None;
        }
        let n = read_le32(data, 0x10) as usize;
        let h = read_le32(data, 0x18) as usize;
        let w = read_le32(data, 0x1c) as usize;
        let w7 = match w.checked_add(7) {
            Some(v) => v,
            None => return None,
        };
        let nh = match n.checked_mul(h) {
            Some(v) => v,
            None => return None,
        };
        let total = match nh.checked_mul(w7 / 8) {
            Some(v) => v,
            None => return None,
        };
        if total > isize::MAX as usize {
            return None;
        }
        let glyphs = psf_glyph_pixels(data);
        let width = w;
        let height = h;
        proof {
            assert(Seq::new(glyphs@.len(), |i: int| glyphs@[i]@) =~= psf_glyphs(data@).take(n as int));
        }
        Some(ConsoleFont::from_glyph_pixels(width, height, &glyphs))
    }
}

} // verus!
