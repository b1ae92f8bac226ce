use termvis::modules::codec::VideoCodec;
use termvis::modules::frame::CharMap;
use termvis::modules::recorder::VideoRecorder;
use termvis::modules::renderer::{
    display_height, pack_cell, playback_resize_target, write_cell, write_cursor_pos, write_u8_dec,
    write_usize_dec, TerminalRenderer,
};

fn dec(v: u8) -> Vec<u8> {
    let mut b = Vec::new();
    write_u8_dec(&mut b, v);
    b
}

fn coord(v: usize) -> Vec<u8> {
    let mut b = Vec::new();
    write_usize_dec(&mut b, v);
    b
}

fn cell_text(r1: u8, g1: u8, b1: u8, r2: u8, g2: u8, b2: u8) -> Vec<u8> {
    format!("\x1b[38;2;{};{};{};48;2;{};{};{}m\u{2580}", r1, g1, b1, r2, g2, b2).into_bytes()
}

#[test]
fn u8_decimal_has_no_leading_zeros() {
    assert_eq!(dec(0), b"0".to_vec());
    assert_eq!(dec(7), b"7".to_vec());
    assert_eq!(dec(10), b"10".to_vec());
    assert_eq!(dec(99), b"99".to_vec());
    assert_eq!(dec(100), b"100".to_vec());
    assert_eq!(dec(205), b"205".to_vec());
    assert_eq!(dec(255), b"255".to_vec());
}

#[test]
fn u8_decimal_appends() {
    let mut b = b"x=".to_vec();
    write_u8_dec(&mut b, 42);
    assert_eq!(b, b"x=42".to_vec());
}

#[test]
fn coordinates_in_decimal() {
    assert_eq!(coord(1), b"1".to_vec());
    assert_eq!(coord(42), b"42".to_vec());
    assert_eq!(coord(123), b"123".to_vec());
    assert_eq!(coord(1000), b"1000".to_vec());
    assert_eq!(coord(9999), b"9999".to_vec());
}

#[test]
fn coordinates_beyond_four_digits_wrap_the_leading_byte() {
    // 12345 / 1000 = 12 -> '0' + 12 = '<'
    assert_eq!(coord(12345), b"<345".to_vec());
    // 300000 / 1000 = 300 -> (48 + 300) mod 256 = 92 = '\\'
    assert_eq!(coord(300_000), b"\\000".to_vec());
}

#[test]
fn pack_cell_layout() {
    assert_eq!(pack_cell(1, 2, 3, 4, 5, 6), 0x0605_0403_0201);
    assert_eq!(pack_cell(255, 255, 255, 255, 255, 255), 0xffff_ffff_ffff);
    assert_eq!(pack_cell(0, 0, 0, 0, 0, 0), 0);
}

#[test]
fn cell_escape_sequence() {
    let mut b = Vec::new();
    write_cell(&mut b, pack_cell(255, 128, 0, 9, 10, 100));
    assert_eq!(b, cell_text(255, 128, 0, 9, 10, 100));
    assert_eq!(b, b"\x1b[38;2;255;128;0;48;2;9;10;100m\xe2\x96\x80".to_vec());
}

#[test]
fn cursor_position_sequence() {
    let mut b = Vec::new();
    write_cursor_pos(&mut b, 3, 17);
    assert_eq!(b, b"\x1b[3;17H".to_vec());
}

/// A 2 x 2 pixel map (one character row of two cells), pixels given as BGR.
fn map_2x2(top: [[u8; 3]; 2], bottom: [[u8; 3]; 2]) -> CharMap {
    let mut data = Vec::new();
    for p in top.iter() {
        data.extend_from_slice(p);
    }
    for p in bottom.iter() {
        data.extend_from_slice(p);
    }
    CharMap::new(2, 2, data).unwrap()
}

#[test]
fn first_frame_is_a_full_redraw() {
    let mut r = TerminalRenderer::new();
    // BGR pixels: top row (1,2,3) (4,5,6), bottom row (7,8,9) (10,11,12)
    let m = map_2x2([[1, 2, 3], [4, 5, 6]], [[7, 8, 9], [10, 11, 12]]);
    let out = r.render_character_map(&m);
    let mut expected = b"\x1b[H".to_vec();
    expected.extend(cell_text(3, 2, 1, 9, 8, 7));
    expected.extend(cell_text(6, 5, 4, 12, 11, 10));
    expected.extend_from_slice(b"\x1b[K\r\n\x1b[0m");
    assert_eq!(out, expected);
}

#[test]
fn unchanged_frame_only_resets_colours() {
    let mut r = TerminalRenderer::new();
    let m = map_2x2([[1, 2, 3], [4, 5, 6]], [[7, 8, 9], [10, 11, 12]]);
    r.render_character_map(&m);
    let out = r.render_character_map(&m);
    assert_eq!(out, b"\x1b[0m".to_vec());
}

#[test]
fn one_changed_cell_is_redrawn_alone() {
    let mut r = TerminalRenderer::new();
    // 2 x 4 pixels: one character row of four cells
    let data: Vec<u8> = (0..24).collect();
    let m = CharMap::new(2, 4, data.clone()).unwrap();
    r.render_character_map(&m);
    let mut changed = data.clone();
    // top pixel of cell 2 (column 2): bytes 6..9 of the first pixel row
    changed[6] = 200;
    let m2 = CharMap::new(2, 4, changed).unwrap();
    let out = r.render_character_map(&m2);
    let mut expected = b"\x1b[1;3H".to_vec();
    // top pixel BGR = (200, 7, 8), bottom pixel BGR = (18, 19, 20)
    expected.extend(cell_text(8, 7, 200, 20, 19, 18));
    expected.extend_from_slice(b"\x1b[0m");
    assert_eq!(out, expected);
}

#[test]
fn adjacent_changes_share_one_cursor_move() {
    let mut r = TerminalRenderer::new();
    let data: Vec<u8> = vec![0; 2 * 4 * 3];
    r.render_character_map(&CharMap::new(2, 4, data.clone()).unwrap());
    let mut changed = data.clone();
    changed[0] = 1; // cell 0, top pixel blue
    changed[3] = 1; // cell 1, top pixel blue
    let out = r.render_character_map(&CharMap::new(2, 4, changed).unwrap());
    let mut expected = b"\x1b[1;1H".to_vec();
    expected.extend(cell_text(0, 0, 1, 0, 0, 0));
    expected.extend(cell_text(0, 0, 1, 0, 0, 0));
    expected.extend_from_slice(b"\x1b[0m");
    assert_eq!(out, expected);
}

#[test]
fn mostly_changed_frame_is_redrawn_in_full() {
    let mut r = TerminalRenderer::new();
    let data: Vec<u8> = vec![0; 2 * 4 * 3];
    r.render_character_map(&CharMap::new(2, 4, data.clone()).unwrap());
    let changed: Vec<u8> = vec![1; 2 * 4 * 3];
    let out = r.render_character_map(&CharMap::new(2, 4, changed).unwrap());
    assert!(out.starts_with(b"\x1b[H"));
    assert!(out.ends_with(b"\x1b[K\r\n\x1b[0m"));
}

#[test]
fn size_change_forces_full_redraw() {
    let mut r = TerminalRenderer::new();
    r.render_character_map(&CharMap::new(2, 1, vec![0; 6]).unwrap());
    let out = r.render_character_map(&CharMap::new(4, 1, vec![0; 12]).unwrap());
    let mut expected = b"\x1b[H".to_vec();
    expected.extend(cell_text(0, 0, 0, 0, 0, 0));
    expected.extend_from_slice(b"\x1b[K\r\n");
    expected.extend(cell_text(0, 0, 0, 0, 0, 0));
    expected.extend_from_slice(b"\x1b[K\r\n\x1b[0m");
    assert_eq!(out, expected);
}

#[test]
fn odd_last_pixel_row_is_dropped() {
    let mut r = TerminalRenderer::new();
    let out = r.render_character_map(&CharMap::new(3, 1, vec![5; 9]).unwrap());
    let mut expected = b"\x1b[H".to_vec();
    expected.extend(cell_text(5, 5, 5, 5, 5, 5));
    expected.extend_from_slice(b"\x1b[K\r\n\x1b[0m");
    assert_eq!(out, expected);
}

#[test]
fn empty_map_draws_nothing() {
    let mut r = TerminalRenderer::new();
    let out = r.render_character_map(&CharMap::new(0, 0, vec![]).unwrap());
    assert_eq!(out, b"\x1b[H\x1b[0m".to_vec());
}

#[test]
fn cursor_sequences() {
    let r = TerminalRenderer::new();
    assert_eq!(r.hide_cursor(), b"\x1B[?25l\x1B[?1049h\x1B[H".to_vec());
    assert_eq!(r.show_cursor(), b"\x1B[?1049l\x1B[?25h".to_vec());
}

#[test]
fn stored_size_is_reused_until_refresh() {
    let mut r = TerminalRenderer::new();
    r.store_terminal_size(Some((100, 40)));
    for _ in 0..29 {
        assert_eq!(r.get_terminal_size(), (100, 40));
    }
}

#[test]
fn failed_size_query_falls_back() {
    let mut r = TerminalRenderer::new();
    r.store_terminal_size(None);
    assert_eq!(r.get_terminal_size(), (80, 24));
}

#[test]
fn display_height_formula() {
    assert_eq!(display_height(24), 46);
    assert_eq!(display_height(2), 2);
    assert_eq!(display_height(1), 2);
    assert_eq!(display_height(0), 2);
    assert_eq!(display_height(3), 4);
}

#[test]
fn resize_target_for_playback() {
    assert_eq!(playback_resize_target(80, 24, 46, 80), None);
    assert_eq!(playback_resize_target(80, 24, 40, 80), Some((80, 46)));
    assert_eq!(playback_resize_target(100, 24, 46, 80), Some((100, 46)));
}

#[test]
fn char_map_construction_checks_size() {
    assert!(CharMap::new(2, 2, vec![0; 12]).is_some());
    assert!(CharMap::new(2, 2, vec![0; 11]).is_none());
    assert!(CharMap::new(2, 2, vec![0; 13]).is_none());
    assert!(CharMap::new(1usize << 31, 0, vec![]).is_none());
}

/// A small terminal: interprets the sequences the renderer emits.
struct Term {
    row: usize,
    col: usize,
    cells: std::collections::HashMap<(usize, usize), (u8, u8, u8, u8, u8, u8)>,
}

fn num(bytes: &[u8], i: &mut usize) -> usize {
    let mut v = 0usize;
    while bytes[*i].is_ascii_digit() {
        v = v * 10 + (bytes[*i] - b'0') as usize;
        *i += 1;
    }
    v
}

impl Term {
    fn feed(&mut self, bytes: &[u8]) {
        let mut i = 0;
        while i < bytes.len() {
            if bytes[i] == b'\r' {
                assert_eq!(bytes[i + 1], b'\n');
                self.row += 1;
                self.col = 0;
                i += 2;
                continue;
            }
            assert_eq!(bytes[i], 0x1b);
            assert_eq!(bytes[i + 1], b'[');
            i += 2;
            if bytes[i] == b'H' {
                self.row = 0;
                self.col = 0;
                i += 1;
            } else if bytes[i] == b'K' {
                let (r, c) = (self.row, self.col);
                self.cells.retain(|k, _| !(k.0 == r && k.1 >= c));
                i += 1;
            } else if bytes[i..].starts_with(b"0m") {
                i += 2;
            } else if bytes[i..].starts_with(b"38;2;") {
                i += 5;
                let mut ch = [0u8; 6];
                for k in 0..3 {
                    ch[k] = num(bytes, &mut i) as u8;
                    i += 1; // ';'
                }
                assert!(bytes[i - 1..].starts_with(b";48;2;"));
                i += 5;
                for k in 3..6 {
                    ch[k] = num(bytes, &mut i) as u8;
                    i += 1; // ';' or 'm'
                }
                assert_eq!(&bytes[i..i + 3], "\u{2580}".as_bytes());
                i += 3;
                self.cells.insert((self.row, self.col), (ch[0], ch[1], ch[2], ch[3], ch[4], ch[5]));
                self.col += 1;
            } else {
                let r = num(bytes, &mut i);
                assert_eq!(bytes[i], b';');
                i += 1;
                let c = num(bytes, &mut i);
                assert_eq!(bytes[i], b'H');
                i += 1;
                self.row = r - 1;
                self.col = c - 1;
            }
        }
    }

    fn shows(&self, m: &CharMap) -> bool {
        for row in 0..m.rows / 2 {
            for col in 0..m.cols {
                let p = |y: usize| {
                    let o = (y * m.cols + col) * 3;
                    (m.data[o + 2], m.data[o + 1], m.data[o])
                };
                let (r1, g1, b1) = p(2 * row);
                let (r2, g2, b2) = p(2 * row + 1);
                if self.cells.get(&(row, col)) != Some(&(r1, g1, b1, r2, g2, b2)) {
                    return false;
                }
            }
        }
        true
    }
}

#[test]
fn terminal_shows_every_rendered_frame() {
    let mut r = TerminalRenderer::new();
    let mut t = Term { row: 7, col: 3, cells: std::collections::HashMap::new() };
    let mut seed: u32 = 12345;
    let mut next = || {
        seed = seed.wrapping_mul(1103515245).wrapping_add(12345);
        (seed >> 16) as u8
    };
    let (rows, cols) = (6usize, 5usize);
    let mut data: Vec<u8> = (0..rows * cols * 3).map(|_| next()).collect();
    for frame in 0..40 {
        // change a few pixels, sometimes many
        let changes = if frame % 7 == 0 { 60 } else { 3 };
        for _ in 0..changes {
            let i = next() as usize % data.len();
            data[i] = next();
        }
        let m = CharMap::new(rows, cols, data.clone()).unwrap();
        let out = r.render_character_map(&m);
        t.feed(&out);
        assert!(t.shows(&m), "frame {}", frame);
    }
}

#[test]
fn static_picture_recorded_twice_gives_a_zero_delta() {
    let mut rec = VideoRecorder::new();
    let m = CharMap::new(2, 2, (1..13).collect()).unwrap();
    rec.record(&m, 1, 1).unwrap();
    let bytes = rec.record(&m, 1, 1).unwrap();
    assert_eq!(bytes[0], 1);
    let delta = VideoCodec::decompress_lossless(&bytes[21..], 2, 2).unwrap();
    assert_eq!(delta.data, vec![0u8; 12]);
}

#[test]
fn width_change_with_same_cell_count_redraws_everything() {
    let mut r = TerminalRenderer::new();
    // 4 cells in one line, then 2 x 2 cells: same count, all cells equal
    r.render_character_map(&CharMap::new(2, 4, vec![0; 24]).unwrap());
    let out = r.render_character_map(&CharMap::new(4, 2, vec![0; 24]).unwrap());
    let mut expected = b"\x1b[H".to_vec();
    for _ in 0..2 {
        expected.extend(cell_text(0, 0, 0, 0, 0, 0));
        expected.extend(cell_text(0, 0, 0, 0, 0, 0));
        expected.extend_from_slice(b"\x1b[K\r\n");
    }
    expected.extend_from_slice(b"\x1b[0m");
    assert_eq!(out, expected);
}

#[test]
fn terminal_shows_frames_of_changing_shape() {
    let mut r = TerminalRenderer::new();
    let mut t = Term { row: 0, col: 0, cells: std::collections::HashMap::new() };
    for (rows, cols) in [(2usize, 4usize), (4, 2), (4, 2), (8, 1), (2, 4), (2, 4)] {
        let m = CharMap::new(rows, cols, vec![9; rows * cols * 3]).unwrap();
        t.feed(&r.render_character_map(&m));
        assert!(t.shows(&m), "{}x{}", rows, cols);
    }
}

#[test]
fn size_refresh_schedule() {
    let mut r = TerminalRenderer::new();
    assert!(r.size_refresh_needed());
    r.store_terminal_size(Some((100, 40)));
    // requests 1..=29 use the cache, request 30 asks again
    for _ in 1..30 {
        assert!(!r.size_refresh_needed());
        r.get_terminal_size();
    }
    assert!(r.size_refresh_needed());
}

#[test]
fn first_frame_of_fresh_renderer_starts_with_home() {
    let mut r = TerminalRenderer::new();
    let out = r.render_character_map(&CharMap::new(2, 3, vec![7; 18]).unwrap());
    assert!(out.starts_with(b"\x1b[H"));
}
