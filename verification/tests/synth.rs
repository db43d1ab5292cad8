use baker::binarize::line_mask;
use baker::binarize::DEFAULT_LINE_THRESHOLD;
use baker::code;
use baker::image::Compression;
use baker::seeds;
use baker::seeds::MIN_SEED_AREA;
use baker::synth::negative;
use baker::synth::torture_01;
use baker::synth::torture_canvas;
use baker::synth::valid;
use baker::synth::zone_grid;
use baker::synth::zone_rect;
use baker::synth::Canvas;
use baker::synth::Negative;
use baker::synth::FRAME;
use baker::synth::PALETTE;
use baker::synth::PERM;
use baker::synth::T_H;
use baker::synth::T_W;

/// The pie zone's colour choices: a central disc, then 24 wedges by angle.
fn pie() -> Vec<u8> {
    const WEDGES: f64 = 24.0;
    const INNER: f64 = 96.0;
    let (_, _, w, h) = zone_rect(1, 2);
    let (cx, cy) = (w as f64 / 2.0, h as f64 / 2.0);
    let mut ks = Vec::with_capacity((w * h) as usize);
    for y in 0..h {
        for x in 0..w {
            let (dx, dy) = (x as f64 - cx, y as f64 - cy);
            let k = if dx.hypot(dy) < INNER {
                3
            } else {
                let t = dy.atan2(dx) + std::f64::consts::PI;
                let wedge = ((t / std::f64::consts::TAU) * WEDGES) as u32;
                wedge.min(WEDGES as u32 - 1) % 3
            };
            ks.push(k as u8);
        }
    }
    ks
}

/// Exactly one seed per grid cell, none on a line, each large enough.
#[test]
fn every_cell_gets_exactly_one_usable_seed() {
    let mut g = Canvas::new(128, 128);
    zone_grid(&mut g, (0, 0, 128, 128), 0, 32);
    let line = line_mask(&g.lineart_rgba(), DEFAULT_LINE_THRESHOLD);
    let seeds = seeds::read(&g.seeds_rgba(), 128, 128);

    assert_eq!(seeds.len(), 16, "4x4 cells give 16 seeds; more means a dot broke apart");
    for s in &seeds {
        assert!(
            s.solid_area >= MIN_SEED_AREA,
            "seed {:?} has only {}px",
            s.anchor,
            s.solid_area
        );
        let i = (s.anchor.1 * 128 + s.anchor.0) as usize;
        assert!(!line[i], "seed {:?} has its anchor on a line", s.anchor);
    }
}

/// The seed colour is the suggested colour, through `PERM`.
#[test]
fn seed_colour_is_the_permuted_palette_entry() {
    let mut g = Canvas::new(64, 64);
    zone_grid(&mut g, (0, 0, 64, 64), 0, 32);
    let seeds = seeds::read(&g.seeds_rgba(), 64, 64);
    let idx = g.get(seeds[0].anchor.0, seeds[0].anchor.1);
    assert_eq!(seeds[0].color, PALETTE[PERM[idx as usize] as usize]);
    assert_ne!(seeds[0].color, PALETTE[idx as usize]);
}

#[test]
fn perm_is_a_bijection_without_fixed_points() {
    let mut seen = [false; 16];
    for (i, &p) in PERM.iter().enumerate() {
        assert_ne!(p as usize, i, "a fixed point would suggest the index's own colour");
        assert!(!seen[p as usize]);
        seen[p as usize] = true;
    }
}

/// The frame lies between zones; the canvas border is left to the edge zone.
#[test]
fn frame_does_not_touch_the_canvas_border() {
    let g = torture_canvas(&pie());
    assert_ne!(g.get(0, T_H - 1), FRAME);
    assert_ne!(g.get(0, 0), FRAME);
}

#[test]
fn zone_grid_merges_the_remainder_into_the_last_cell() {
    let mut g = Canvas::new(100, 40);
    zone_grid(&mut g, (0, 0, 100, 40), 0, 32);
    // 100 / 32 = 3: the last cell is 36 wide, not 4
    assert_eq!(g.get(99, 0), g.get(64, 0));
    assert_ne!(g.get(63, 0), g.get(64, 0));
}

#[test]
fn torture_is_bit_identical_across_runs() {
    let a = torture_canvas(&pie());
    let b = torture_canvas(&pie());
    assert_eq!(a.idx, b.idx);
}

/// The frame is 8px wide, centred on the zone boundary.
#[test]
fn the_frame_sits_between_zones() {
    let g = torture_canvas(&pie());
    assert_eq!(g.width, T_W);
    assert_eq!(g.height, T_H);
    assert_eq!(g.get(1020, 500), FRAME);
    assert_eq!(g.get(1027, 500), FRAME);
    assert_ne!(g.get(1028, 500), FRAME);
    assert_eq!(g.get(500, 3068), FRAME);
    assert_eq!(zone_rect(0, 0), (0, 0, 1020, 1020));
    assert_eq!(zone_rect(1, 1), (1028, 1028, 1016, 1016));
    assert_eq!(zone_rect(2, 3), (2052, 3076, 1020, 1020));
}

#[test]
fn the_torture_asset_has_no_shade_and_compresses_hard() {
    let a = torture_01(&pie());
    assert_eq!(a.id, "torture-01");
    assert_eq!((a.width, a.height), (T_W, T_H));
    assert!(a.shade.is_none());
    assert_eq!(a.compression, Compression::High);
    assert_eq!(a.lineart.len(), (T_W * T_H * 4) as usize);
    assert_eq!(a.seeds.len(), (T_W * T_H * 4) as usize);
}

#[test]
fn a_valid_asset_has_a_gradient_shade_when_asked() {
    let a = valid("demo", 64, 64, 32, true);
    assert_eq!(a.title, "Synthetic demo");
    let shade = a.shade.unwrap();
    assert_eq!(&shade[0..4], &[255, 255, 255, 255]);
    // row 63: 255 - 63 * 100 / 64 = 157
    let last = (63 * 64 * 4) as usize;
    assert_eq!(&shade[last..last + 4], &[157, 157, 157, 255]);
    assert!(valid("demo", 64, 64, 32, false).shade.is_none());
}

#[test]
fn negative_fixtures_name_their_expected_code() {
    assert_eq!(negative(Negative::SeedCollision).expect, code::SEED_COLLISION);
    assert_eq!(negative(Negative::SeedTooSmall).planted, vec![(776, 776)]);
    assert_eq!(negative(Negative::SeedOnLine).planted, vec![(1791, 1900)]);
    let p3 = negative(Negative::DisplayP3);
    assert!(p3.asset.seeds_icc.is_some());
    assert!(p3.planted.is_empty());
}
