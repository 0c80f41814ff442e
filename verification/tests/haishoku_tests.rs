use walrus_palette::color::Color;
use walrus_palette::haishoku::Haishoku;

#[test]
fn test_weighted_mean() {
    let haishoku = Haishoku::new();
    let colors = vec![
        (10, Color::new(255, 0, 0)),
        (5, Color::new(0, 255, 0)),
        (3, Color::new(0, 0, 255)),
    ];

    let (weight, mean_color) = haishoku.get_weighted_mean(colors);
    assert_eq!(weight, 18);
    assert!(mean_color.r > mean_color.g && mean_color.r > mean_color.b);
}

#[test]
fn test_weighted_mean_exact() {
    let haishoku = Haishoku::new();
    let colors = vec![
        (10, Color::new(255, 0, 0)),
        (5, Color::new(0, 255, 0)),
        (3, Color::new(0, 0, 255)),
    ];

    // 2550 / 18 = 141, 1275 / 18 = 70, 765 / 18 = 42, all truncated
    let (weight, mean_color) = haishoku.get_weighted_mean(colors);
    assert_eq!(weight, 18);
    assert_eq!(mean_color, Color::new(141, 70, 42));
}

#[test]
fn test_color_grouping() {
    let haishoku = Haishoku::new();
    let colors = vec![
        (1, Color::new(255, 255, 255)), // should land in bucket (2, 2, 2)
        (1, Color::new(0, 0, 0)),       // should land in bucket (0, 0, 0)
        (1, Color::new(127, 127, 127)), // should land in bucket (1, 1, 1)
    ];

    let groups = haishoku.group_by_accuracy(colors);
    assert!(!groups[0].is_empty()); // flat index of (0, 0, 0)
    assert!(!groups[13].is_empty()); // flat index of (1, 1, 1)
    assert!(!groups[26].is_empty()); // flat index of (2, 2, 2)
}

#[test]
fn test_color_distance() {
    let haishoku = Haishoku::new();
    let color1 = Color::new(255, 0, 0);
    let color2 = Color::new(255, 0, 0);
    let color3 = Color::new(0, 255, 0);

    assert_eq!(haishoku.color_distance_squared(&color1, &color2), 0);
    assert!(haishoku.color_distance_squared(&color1, &color3) > 0);
}

#[test]
fn test_bucket_index_channel_bounds() {
    // 255 lands in division 2, never 3, on every axis
    assert_eq!(Haishoku::bucket_index(255), 2);
    assert_eq!(Haishoku::bucket_index(0), 0);
    assert_eq!(Haishoku::bucket_index(127), 1);
    for ch in 0..=255u8 {
        assert!(Haishoku::bucket_index(ch) <= 2);
    }
    assert_eq!(Haishoku::bucket_of(&Color::new(255, 255, 255)), 26);
    assert_eq!(Haishoku::bucket_of(&Color::new(255, 0, 255)), 20);
}

#[test]
fn test_count_colors_builds_histogram() {
    let haishoku = Haishoku::new();
    let pixels = vec![
        Color::new(10, 20, 30),
        Color::new(0, 0, 0),
        Color::new(10, 20, 30),
        Color::new(10, 20, 30),
    ];
    let hist = haishoku.count_colors(&pixels);
    assert_eq!(hist.len(), 2);
    assert_eq!(hist[0], (1, Color::new(0, 0, 0)));
    assert_eq!(hist[1], (3, Color::new(10, 20, 30)));
}

#[test]
fn test_load_haishoku_ranks_and_filters() {
    let mut haishoku = Haishoku::new();
    let mut pixels = Vec::new();
    for _ in 0..3 {
        pixels.push(Color::new(0, 0, 0));
    }
    for _ in 0..2 {
        pixels.push(Color::new(255, 255, 255));
    }
    haishoku.load_haishoku(&pixels);

    // two distant buckets: both survive, ranked by weight
    assert_eq!(haishoku.palette.len(), 2);
    assert_eq!(haishoku.palette[0], (3, 5, Color::new(0, 0, 0)));
    assert_eq!(haishoku.palette[1], (2, 5, Color::new(255, 255, 255)));
    assert_eq!(haishoku.dominant, Some(Color::new(0, 0, 0)));
}

#[test]
fn test_load_haishoku_filters_near_duplicates() {
    let mut haishoku = Haishoku::new();
    // two colors in different buckets but Euclidean distance < 30:
    // (84, 0, 0) is in red-division 0, (86, 0, 0) in red-division 1
    let mut pixels = Vec::new();
    for _ in 0..4 {
        pixels.push(Color::new(84, 0, 0));
    }
    for _ in 0..2 {
        pixels.push(Color::new(86, 0, 0));
    }
    haishoku.load_haishoku(&pixels);
    assert_eq!(haishoku.palette.len(), 1);
    assert_eq!(haishoku.palette[0], (4, 4, Color::new(84, 0, 0)));
}

#[test]
fn test_load_haishoku_empty_sample() {
    let mut haishoku = Haishoku::new();
    let pixels: Vec<Color> = Vec::new();
    haishoku.load_haishoku(&pixels);
    assert!(haishoku.palette.is_empty());
    assert_eq!(haishoku.dominant, None);
}

#[test]
fn test_quantizer_bounds_and_order() {
    // a sample over many buckets: at most 8 survive, descending by weight,
    // pairwise far apart
    let mut haishoku = Haishoku::new();
    let mut pixels = Vec::new();
    let corners = [0u8, 127, 255];
    let mut weight = 1;
    for r in corners.iter() {
        for g in corners.iter() {
            for b in corners.iter() {
                for _ in 0..weight {
                    pixels.push(Color::new(*r, *g, *b));
                }
                weight += 1;
            }
        }
    }
    haishoku.load_haishoku(&pixels);
    assert!(1 <= haishoku.palette.len() && haishoku.palette.len() <= 8);
    for i in 1..haishoku.palette.len() {
        assert!(haishoku.palette[i - 1].0 >= haishoku.palette[i].0);
        for j in 0..i {
            let a = haishoku.palette[i].2;
            let b = haishoku.palette[j].2;
            let dr = (a.r as i64) - (b.r as i64);
            let dg = (a.g as i64) - (b.g as i64);
            let db = (a.b as i64) - (b.b as i64);
            assert!(dr * dr + dg * dg + db * db >= 900);
        }
    }
}
