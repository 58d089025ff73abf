use compphys::md::cells::{CellList, EMPTY};
use compphys::md::fluid::{ForceEngine, UnknownForceEngine};
use compphys::md::greeting;
use compphys::md::integrators::ForwardEuler;
use compphys::md::lattice::{lattice_rows, LatticeError};
use compphys::md::schedule::{rescale_due, sample_due, THERMO_INTERVAL};
use compphys::md::video::{Canvas, PngError};

#[test]
fn greeting_is_hello_world() {
    assert_eq!(greeting(), "Hello, world!");
}

#[test]
fn force_engine_names_parse_and_print() {
    assert_eq!(ForceEngine::parse("naive"), Ok(ForceEngine::Naive));
    assert_eq!(ForceEngine::parse("cells"), Ok(ForceEngine::Cells));
    assert_eq!(ForceEngine::parse("magic"), Err(UnknownForceEngine("magic".to_string())));
    assert_eq!(ForceEngine::Naive.as_str(), "naive");
    assert_eq!(ForceEngine::Cells.as_str(), "cells");
}

#[test]
fn forward_euler_is_named() {
    assert_eq!(ForwardEuler::new().name(), "forward-Euler");
    assert_eq!(ForwardEuler::default(), ForwardEuler::new());
}

#[test]
fn rejects_bad_atom_counts() {
    assert_eq!(lattice_rows(90), Err(LatticeError::NotSquare(90))); // not a perfect square
    assert_eq!(lattice_rows(9), Err(LatticeError::OddRows(3))); // odd row count (3)
    assert_eq!(lattice_rows(16), Ok(4)); // 4x4 is fine
    assert_eq!(lattice_rows(100), Ok(10));
    assert_eq!(lattice_rows(0), Ok(0));
    assert_eq!(lattice_rows(1), Err(LatticeError::OddRows(1)));
}

/// Walk the chain of cell c and collect its atoms.
fn chain(cl: &CellList, c: usize) -> Vec<usize> {
    let mut out = Vec::new();
    let mut j = cl.head[c];
    while j != EMPTY {
        out.push(j);
        j = cl.next[j];
    }
    out
}

#[test]
fn every_atom_lands_in_exactly_one_cell() {
    // 100 atoms spread over a 4 x 4 grid of cells
    let cells: Vec<usize> = (0..100usize).map(|i| (i * 7 + i / 3) % 16).collect();
    let cl = CellList::from_cells(4, 4, &cells);
    let mut counts = vec![0usize; 100];
    let mut seen = 0;
    for c in 0..16 {
        for j in chain(&cl, c) {
            assert_eq!(cells[j], c);
            counts[j] += 1;
            seen += 1;
        }
    }
    assert_eq!(seen, 100);
    assert!(counts.iter().all(|&k| k == 1));
    assert_eq!(cl.head.len(), 16);
}

#[test]
fn chains_run_from_the_latest_atom_down() {
    let cells = vec![1usize, 0, 1, 1, 0];
    let cl = CellList::from_cells(2, 1, &cells);
    assert_eq!(chain(&cl, 1), vec![3, 2, 0]);
    assert_eq!(chain(&cl, 0), vec![4, 1]);
}

#[test]
fn two_cell_box_dedups_wrapped_offsets() {
    // a 2 x 2 grid: +-1 offsets wrap onto the same cells, so the neighbour
    // set must still contain each cell exactly once.
    let cells: Vec<usize> = (0..16usize).map(|i| i % 4).collect();
    let cl = CellList::from_cells(2, 2, &cells);
    for cy in 0..cl.ny {
        for cx in 0..cl.nx {
            let got = cl.neighbour_cells(cx, cy);
            let mut sorted = got.clone();
            sorted.sort_unstable();
            sorted.dedup();
            assert_eq!(sorted.len(), 4, "expected all 4 cells, got {sorted:?}");
            assert_eq!(got.len(), 4);
        }
    }
}

#[test]
fn wrapped_neighbours_stay_within_one_cell_step() {
    let cells: Vec<usize> = (0..10usize).map(|i| i % 16).collect();
    let cl = CellList::from_cells(4, 4, &cells);
    for (cx, cy) in [(0, 0), (3, 3), (0, 3), (3, 0), (2, 1)] {
        let got = cl.neighbour_cells(cx, cy);
        assert_eq!(got.len(), 9);
        for c in got {
            let (ncx, ncy) = (c % cl.nx, c / cl.nx);
            let ddx = (ncx as i64 - cx as i64).abs().min(cl.nx as i64 - (ncx as i64 - cx as i64).abs());
            let ddy = (ncy as i64 - cy as i64).abs().min(cl.ny as i64 - (ncy as i64 - cy as i64).abs());
            assert!(ddx <= 1 && ddy <= 1, "cell too far: ({cx}, {cy}) -> ({ncx}, {ncy})");
        }
    }
}

#[test]
fn partners_are_the_later_atoms_of_the_nine_cells() {
    // 5 x 5 grid; atom 0 in cell (0, 0) sees cells with columns and rows in
    // {4, 0, 1}.
    let cells = vec![0usize, 1, 24, 12, 5, 20, 4, 6, 0, 7];
    let cl = CellList::from_cells(5, 5, &cells);
    // cells are searched row dy = -1, 0, 1 and within a row dx = -1, 0, 1,
    // each chain from its latest atom down
    assert_eq!(cl.neighbour_cells(0, 0), vec![24, 20, 21, 4, 0, 1, 9, 5, 6]);
    assert_eq!(cl.partners(&cells, 0), vec![2, 5, 6, 8, 1, 4, 7]);
    // atom 3 in the centre cell (2, 2) meets atoms 7 (cell (1, 1)) and 9
    // (cell (2, 1))
    let mut mid = cl.partners(&cells, 3);
    mid.sort_unstable();
    assert_eq!(mid, vec![7, 9]);
    // the last atom has no later atoms at all
    assert!(cl.partners(&cells, 9).is_empty());
}

#[test]
fn cell_search_meets_every_near_pair_once() {
    let cells: Vec<usize> = (0..60usize).map(|i| (i * 11 + i / 4) % 20).collect();
    let (nx, ny) = (5usize, 4usize);
    let cl = CellList::from_cells(nx, ny, &cells);
    let near = |a: usize, b: usize| {
        let (ax, ay) = ((cells[a] % nx) as i64, (cells[a] / nx) as i64);
        let (bx, by) = ((cells[b] % nx) as i64, (cells[b] / nx) as i64);
        let dx = (ax - bx).rem_euclid(nx as i64);
        let dy = (ay - by).rem_euclid(ny as i64);
        (dx <= 1 || dx == nx as i64 - 1) && (dy <= 1 || dy == ny as i64 - 1)
    };
    let mut met = vec![vec![0usize; 60]; 60];
    for i in 0..60 {
        for j in cl.partners(&cells, i) {
            assert!(j > i);
            met[i][j] += 1;
            met[j][i] += 1;
        }
    }
    for i in 0..60 {
        for j in 0..60 {
            if i != j {
                assert_eq!(met[i][j], if near(i, j) { 1 } else { 0 }, "pair ({i}, {j})");
            }
        }
    }
}

#[test]
fn one_cell_box_is_its_own_neighbour() {
    let cl = CellList::from_cells(1, 1, &vec![0usize, 0]);
    assert_eq!(cl.neighbour_cells(0, 0), vec![0]);
}

#[test]
fn text_blitter_marks_pixels() {
    let mut img = Canvas::new(64, 16, [255, 255, 255, 255]);
    img.draw_text(2, 2, [0, 0, 0, 255], "g(r)");
    let marked = img.pixels().iter().filter(|p| **p != [255, 255, 255, 255]).count();
    assert!(marked > 4, "text drew {marked} pixels");
}

#[test]
fn text_outside_the_basic_set_draws_nothing() {
    let mut img = Canvas::new(32, 16, [255, 255, 255, 255]);
    img.draw_text(0, 0, [0, 0, 0, 255], "\u{00e9}\u{00e9}");
    assert!(img.pixels().iter().all(|p| *p == [255, 255, 255, 255]));
    img.draw_text(0, 0, [0, 0, 0, 255], "  ");
    assert!(img.pixels().iter().all(|p| *p == [255, 255, 255, 255]));
}

#[test]
fn disk_covers_exactly_the_pixels_within_the_radius() {
    let mut img = Canvas::new(20, 20, [0, 0, 0, 0]);
    img.draw_disk(10, 10, 3, [9, 9, 9, 9]);
    for y in 0..20i32 {
        for x in 0..20i32 {
            let inside = (x - 10) * (x - 10) + (y - 10) * (y - 10) <= 9;
            let want = if inside { [9, 9, 9, 9] } else { [0, 0, 0, 0] };
            assert_eq!(img.get_pixel(x as u32, y as u32), want, "pixel ({x}, {y})");
        }
    }
}

#[test]
fn disk_is_clipped_at_the_edges() {
    let mut img = Canvas::new(8, 8, [0, 0, 0, 0]);
    img.draw_disk(0, 0, 2, [1, 1, 1, 1]);
    let marked = img.pixels().iter().filter(|p| **p == [1, 1, 1, 1]).count();
    // the quarter disk x, y >= 0 with x^2 + y^2 <= 4
    assert_eq!(marked, 6);
    img.draw_disk(-5, -5, 1, [2, 2, 2, 2]);
    assert!(img.pixels().iter().all(|p| *p != [2, 2, 2, 2]));
}

#[test]
fn schedule_rescales_every_fifty_steps_and_samples_every_k() {
    assert_eq!(THERMO_INTERVAL, 50);
    assert!(rescale_due(0));
    assert!(!rescale_due(1));
    assert!(rescale_due(50));
    assert!(!rescale_due(149));
    assert!(rescale_due(150));
    // 400 production steps sampled every 100 keep 4 frames, the first at 100
    let saved: Vec<usize> = (1..=400).filter(|&s| sample_due(s, 100)).collect();
    assert_eq!(saved, vec![100, 200, 300, 400]);
    // the default run: 10000 / 50 = 200 frames
    assert_eq!((1..=10000).filter(|&s| sample_due(s, 50)).count(), 200);
    assert_eq!((1..=7).filter(|&s| sample_due(s, 3)).count(), 2);
    assert!(sample_due(5, 1));
}

#[test]
fn png_file_starts_with_the_signature() {
    let mut img = Canvas::new(64, 16, [255, 255, 255, 255]);
    img.draw_text(2, 2, [0, 0, 0, 255], "g(r)");
    let bytes = img.encode_png().unwrap();
    assert_eq!(&bytes[..8], b"\x89PNG\r\n\x1a\n");
    // the raw pixels are 64 * 16 * 4 bytes of mostly white; the file is not
    // those bytes
    assert_ne!(bytes, img.to_rgba());
}

#[test]
fn png_of_an_empty_canvas_is_refused() {
    assert_eq!(Canvas::new(0, 5, [0; 4]).encode_png(), Err(PngError::EncodingFailed));
    assert_eq!(Canvas::new(5, 0, [0; 4]).encode_png(), Err(PngError::EncodingFailed));
    // any canvas with a pixel encodes
    assert!(Canvas::new(1, 1, [0; 4]).encode_png().is_ok());
    assert!(Canvas::new(3, 1, [7, 8, 9, 10]).encode_png().is_ok());
}

#[test]
fn canvas_bytes_are_rgba_row_major() {
    let mut img = Canvas::new(2, 2, [1, 2, 3, 4]);
    img.put_pixel(1, 0, [5, 6, 7, 8]);
    img.put_pixel(0, 1, [9, 10, 11, 12]);
    assert_eq!(
        img.to_rgba(),
        vec![1, 2, 3, 4, 5, 6, 7, 8, 9, 10, 11, 12, 1, 2, 3, 4]
    );
}

#[test]
fn disks_far_off_or_wide_follow_the_arithmetic_bound() {
    let mut img = Canvas::new(8, 6, [0; 4]);
    // a centre far outside the canvas draws nothing
    assert!(img.disk_fits(1_000_000, -2_000_000, 3));
    img.draw_disk(1_000_000, -2_000_000, 3, [1; 4]);
    assert!(img.pixels().iter().all(|p| *p == [0; 4]));
    // a radius of 40000 covers the canvas
    assert!(img.disk_fits(3, 3, 40_000));
    img.draw_disk(3, 3, 40_000, [2; 4]);
    assert!(img.pixels().iter().all(|p| *p == [2; 4]));
    // r^2 beyond i32 when a pixel is visited does not fit
    assert!(!img.disk_fits(3, 3, 50_000));
    // the row bound cy + r + 1 must fit in i32
    assert!(!img.disk_fits(0, i32::MAX, 1));
    // no pixel visited: a huge radius far off-canvas to the left still has
    // its row bounds computed, but nothing else
    assert!(img.disk_fits(-1_000_000_000, 2, 1_000));
}
