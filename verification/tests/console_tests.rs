use std::collections::VecDeque;

use eos_base::console_draw::{
    draw_console_events, Changed, ConsoleColor, ConsoleEvent, ConsoleFont, Damage, DisplayMap,
    GlyphPixel, TextBuffer, TextScreen,
};

fn lines(t: &TextBuffer) -> Vec<Vec<u8>> {
    t.lines.iter().cloned().collect()
}

#[test]
fn damage_merges_to_the_bounding_box() {
    let a = Damage { x: 1, y: 2, width: 3, height: 4 };
    let b = Damage { x: 10, y: 0, width: 2, height: 1 };
    assert_eq!(a.merge(b), Damage { x: 1, y: 0, width: 11, height: 6 });
    assert_eq!(a.merge(b), b.merge(a));
    assert_eq!(Damage::none().merge(a), a);
    assert_eq!(a.merge(Damage::none()), a);
}

#[test]
fn scrollback_keeps_the_last_lines() {
    let mut t = TextBuffer::new(2);
    assert_eq!(lines(&t), vec![Vec::<u8>::new()]);
    t.write(b"");
    assert_eq!(lines(&t), vec![Vec::<u8>::new()]);
    t.write(b"ab");
    t.write(b"c\nd");
    assert_eq!(lines(&t), vec![b"abc\n".to_vec(), b"d".to_vec()]);
    t.write(b"\ne\n");
    assert_eq!(lines(&t), vec![b"e\n".to_vec(), Vec::<u8>::new()]);
    assert_eq!(t.lines_max, 2);
}

#[test]
fn fonts_from_pixels() {
    let glyphs = vec![
        vec![GlyphPixel { bit: 1, x: 0, y: 0 }, GlyphPixel { bit: 1, x: 9, y: 1 }],
        vec![GlyphPixel { bit: 0, x: 1, y: 0 }, GlyphPixel { bit: 1, x: 7, y: 1 }],
    ];
    let f = ConsoleFont::from_glyph_pixels(10, 2, &glyphs);
    assert_eq!(f.width, 10);
    assert_eq!(f.height, 2);
    assert_eq!(f.glyphs, vec![0x80, 0, 0, 0x40, 0, 0, 0x01, 0]);
    let g = ConsoleFont::new(vec![1, 2], 8, 2);
    assert_eq!(g.glyphs, vec![1, 2]);
}

#[test]
fn resize_keeps_the_rows_that_fit() {
    let mut screen = TextScreen::new(None);
    assert_eq!(screen.font.width, 8);
    assert_eq!(screen.font.height, 16);
    let old = DisplayMap { pixels: vec![1, 2, 3, 4], width: 2, height: 2 };
    let wider = screen.resize(&old, 3, 2);
    assert_eq!(wider.pixels, vec![1, 2, 0, 3, 4, 0]);
    let narrower = screen.resize(&old, 1, 3);
    assert_eq!(narrower.pixels, vec![1, 3, 0]);
}

#[test]
fn writing_draws_the_glyph() {
    let mut screen = TextScreen::new(None);
    let mut map = DisplayMap { pixels: vec![0; 16 * 16], width: 16, height: 16 };
    let mut input = VecDeque::new();
    let damage = screen.write(&mut map, b"A", &mut input);
    assert!(damage.width > 0 && damage.height > 0);
    assert_eq!(damage.x, 0);
    assert_eq!(damage.y, 0);
    assert!(map.pixels[..8].iter().chain(map.pixels[16..].iter()).any(|p| *p != 0));
    assert!(map.pixels.iter().any(|p| *p >> 24 == 0xFF));
    assert!(input.is_empty());
}

#[test]
fn writing_moves_the_cursor() {
    let mut screen = TextScreen::new(None);
    assert_eq!((screen.cursor.x, screen.cursor.y, screen.cursor.cursor), (0, 0, true));
    let mut map = DisplayMap { pixels: vec![0; 32 * 32], width: 32, height: 32 };
    let mut input = VecDeque::new();
    screen.write(&mut map, b"AB", &mut input);
    assert_eq!((screen.cursor.x, screen.cursor.y, screen.cursor.w, screen.cursor.h), (2, 0, 4, 2));
    screen.write(&mut map, b"\r\nC", &mut input);
    assert_eq!((screen.cursor.x, screen.cursor.y), (1, 1));
    let before = map.pixels.clone();
    let damage = screen.write(&mut map, b"", &mut input);
    assert_eq!(map.pixels, before);
    assert_eq!((damage.x, damage.y), (8, 16));
    assert!(input.is_empty());
}

#[test]
fn resize_moves_the_cursor_up_with_the_dropped_lines() {
    let mut screen = TextScreen::new(None);
    screen.cursor.y = 5;
    let old = DisplayMap { pixels: vec![0; 100], width: 1, height: 100 };
    let _ = screen.resize(&old, 1, 100);
    assert_eq!(screen.cursor.y, 5);
    let _ = screen.resize(&old, 1, 60);
    assert_eq!(screen.cursor.y, 2);
    let _ = screen.resize(&old, 1, 0);
    assert_eq!(screen.cursor.y, 0);
}

fn psf_file(width: u32, glyphs: &[u8]) -> Vec<u8> {
    let mut f = vec![0x72, 0xb5, 0x4a, 0x86];
    for word in [0u32, 32, 0, 2, 2, 2, width] {
        f.extend_from_slice(&word.to_le_bytes());
    }
    f.extend_from_slice(glyphs);
    f
}

#[test]
fn fonts_from_psf_files() {
    let font = ConsoleFont::from_psf(&psf_file(8, &[0x80, 0x01, 0xFF, 0x00])).unwrap();
    assert_eq!((font.width, font.height), (8, 2));
    assert_eq!(font.glyphs, vec![0x80, 0x01, 0xFF, 0x00]);
    let mut bad_magic = psf_file(8, &[0x80, 0x01, 0xFF, 0x00]);
    bad_magic[0] = 0;
    assert!(ConsoleFont::from_psf(&bad_magic).is_none());
    assert!(ConsoleFont::from_psf(&psf_file(8, &[0x80, 0x01])).is_none());
    assert!(ConsoleFont::from_psf(&psf_file(0, &[0x80, 0x01, 0xFF, 0x00])).is_none());
    assert!(ConsoleFont::from_psf(&[0x72, 0xb5, 0x4a, 0x86]).is_none());
}

#[test]
fn palette_colors_are_drawn() {
    let font = ConsoleFont::new(vec![0; 16], 1, 1);
    let mut map = DisplayMap { pixels: vec![0; 4], width: 4, height: 1 };
    let mut changed = Changed { min_x: 4, max_x: 0, min_y: 1, max_y: 0 };
    let mut input = VecDeque::new();
    let events = vec![
        ConsoleEvent::Rect { x: 0, y: 0, w: 1, h: 1, color: ConsoleColor::Ansi(9) },
        ConsoleEvent::Rect { x: 1, y: 0, w: 1, h: 1, color: ConsoleColor::Ansi(196) },
        ConsoleEvent::Rect { x: 2, y: 0, w: 1, h: 1, color: ConsoleColor::Ansi(244) },
        ConsoleEvent::Rect { x: 3, y: 0, w: 1, h: 1, color: ConsoleColor::TrueColor(1, 2, 3) },
    ];
    draw_console_events(&mut map, &font, &events, &mut changed, &mut input);
    assert_eq!(map.pixels, vec![0xFFFF_0000, 0xFFF0_0000, 0xFF80_8080, 0xFF01_0203]);
}

#[test]
fn two_writes_keep_what_one_write_keeps() {
    let mut one = TextBuffer::new(3);
    one.write(b"ab\ncd\nef");
    one.write(b"gh\nij\nkl");
    let mut both = TextBuffer::new(3);
    both.write(b"ab\ncd\nefgh\nij\nkl");
    assert_eq!(lines(&one), lines(&both));
}

#[test]
fn control_sequences_move_the_cursor_and_answer_reports() {
    let mut screen = TextScreen::new(None);
    let mut map = DisplayMap { pixels: vec![0; 80 * 64], width: 80, height: 64 };
    let mut input = VecDeque::new();
    screen.write(&mut map, b"\x1b[3;5HZ", &mut input);
    assert_eq!((screen.cursor.x, screen.cursor.y), (5, 2));
    screen.write(&mut map, b"\x1b[2J\x1b[31mA\x1b[0m", &mut input);
    assert_eq!((screen.cursor.x, screen.cursor.y), (1, 0));
    screen.write(&mut map, b"\x1b[2C\x1b[B", &mut input);
    assert_eq!((screen.cursor.x, screen.cursor.y), (3, 1));
    screen.write(&mut map, b"\x1b[?25l\x1b[2;2H\x1b7\x1b[4;4H\x1b8X\x1b[?25h", &mut input);
    assert_eq!((screen.cursor.x, screen.cursor.y), (2, 1));
    screen.write(&mut map, b"\x1b[2C\x1b[B", &mut input);
    assert_eq!((screen.cursor.x, screen.cursor.y), (4, 2));
    screen.write(&mut map, b"\x1bM\x1bM\x1b[D", &mut input);
    assert_eq!((screen.cursor.x, screen.cursor.y), (3, 0));
    screen.write(&mut map, b"\x1b[2;3H\x1b[4S\x1b[T", &mut input);
    assert_eq!((screen.cursor.x, screen.cursor.y), (2, 1));
    screen.write(&mut map, b"\x1b[6n", &mut input);
    assert_eq!(input.iter().copied().collect::<Vec<u8>>(), b"\x1b[2;3R".to_vec());
}
