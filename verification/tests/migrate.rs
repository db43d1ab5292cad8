use baker::migrate::seeds_from_reference;
use baker::seeds;

/// Line art from text: `#` is a line pixel.
fn build(rows: &[&str]) -> (Vec<u8>, u32, u32) {
    let h = rows.len() as u32;
    let w = rows[0].len() as u32;
    let mut lineart = Vec::new();
    for row in rows {
        for c in row.chars() {
            lineart.extend_from_slice(&[0, 0, 0, if c == '#' { 255 } else { 0 }]);
        }
    }
    (lineart, w, h)
}

fn flat(w: u32, h: u32, left: [u8; 3], right: [u8; 3]) -> Vec<u8> {
    let mut out = Vec::new();
    for _ in 0..h {
        for x in 0..w {
            let c = if x < w / 2 { left } else { right };
            out.extend_from_slice(&[c[0], c[1], c[2], 255]);
        }
    }
    out
}

/// One line splits the canvas into two closed areas: two seeds, each with the
/// reference colour of its half.
#[test]
fn each_closed_area_gets_one_seed_coloured_by_its_reference_mode() {
    let (lineart, w, h) = build(&[
        "....#....",
        "....#....",
        "....#....",
        "....#....",
        "....#....",
        "....#....",
        "....#....",
        "....#....",
        "....#....",
    ]);
    let reference = flat(w, h, [200, 10, 10], [10, 20, 200]);
    let d = seeds_from_reference(&lineart, &reference, w, h, 128, 4);

    assert_eq!((d.seeded, d.skipped), (2, 0));
    let read = seeds::read(&d.seeds, w, h);
    assert_eq!(read.len(), 2, "a broken dot would give more seeds");
    assert_eq!(read[0].color, [200, 10, 10]);
    assert_eq!(read[1].color, [10, 20, 200]);
}

/// Fragments below the area threshold get no dot.
#[test]
fn fragments_below_the_threshold_are_left_unseeded() {
    let (lineart, w, h) = build(&["..#.#....", "..#.#....", "..#.#...."]);
    let reference = flat(w, h, [1, 2, 3], [4, 5, 6]);
    // the middle strip is 1 wide and 3 high = 3px, below the threshold of 4
    let d = seeds_from_reference(&lineart, &reference, w, h, 128, 4);
    assert_eq!(d.skipped, 1, "the 3px strip is skipped");
}

/// The anchor is as far from the line as it gets.
#[test]
fn the_anchor_sits_deep_inside_not_against_the_line() {
    let (lineart, w, h) = build(&[
        "#########",
        "#.......#",
        "#.......#",
        "#.......#",
        "#.......#",
        "#.......#",
        "#.......#",
        "#.......#",
        "#########",
    ]);
    let reference = flat(w, h, [9, 9, 9], [9, 9, 9]);
    let d = seeds_from_reference(&lineart, &reference, w, h, 128, 4);
    let read = seeds::read(&d.seeds, w, h);
    assert_eq!(read.len(), 1);
    let (x, y) = read[0].anchor;
    assert!(
        (2..=6).contains(&x) && (2..=6).contains(&y),
        "anchor {:?} touches the line",
        read[0].anchor
    );
}

/// Line pixels of the seeds image stay transparent.
#[test]
fn seeds_never_cover_line_pixels() {
    let (lineart, w, h) = build(&["....#....", "....#....", "....#...."]);
    let reference = flat(w, h, [1, 1, 1], [2, 2, 2]);
    let d = seeds_from_reference(&lineart, &reference, w, h, 128, 1);
    for p in 0..(w * h) as usize {
        if lineart[p * 4 + 3] == 255 {
            assert_eq!(d.seeds[p * 4 + 3], 0, "pixel {p}");
        }
    }
}

/// Large areas with dots wider than the area's narrowest part: every seeded
/// area still reads back as exactly one seed in its reference colour, and the
/// fragments stay unseeded.
#[test]
fn derived_seeds_read_back_one_per_seeded_area() {
    let (lineart, w, h) = build(&[
        "..............#...............",
        "..............#...............",
        "..............#...............",
        "..............#...............",
        "###############...............",
        "..............#...............",
        "..............#...............",
        "..............################",
        "..............#...............",
        "###...........#...............",
        "..#...........#...............",
        "..#...........#...............",
    ]);
    let reference = flat(w, h, [30, 60, 90], [200, 100, 50]);
    let d = seeds_from_reference(&lineart, &reference, w, h, 128, 8);
    let read = seeds::read(&d.seeds, w, h);
    assert_eq!(d.seeded + d.skipped, 5);
    assert_eq!(d.skipped, 1, "the 2×2 corner is a fragment");
    assert_eq!(d.seeded, 4);
    assert_eq!(read.len(), d.seeded);
    for s in &read {
        assert!(s.color == [30, 60, 90] || s.color == [200, 100, 50], "{:?}", s.color);
    }
}
