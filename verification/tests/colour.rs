use mandelbrot::colour::{ColourRange, HistogramColouring, Ratio};
use mandelbrot::pixel::{create_pixels, Complex, Pixel};
use mandelbrot::screen::Size;

fn escaped_at(x: u32, y: u32, iteration_count: u32) -> Pixel {
    Pixel {
        x,
        y,
        escaped: 1,
        current_value: Complex { real_bits: 0x4000_0000, imaginary_bits: 0x4040_0000 },
        iteration_count,
    }
}

fn quotient(ratio: Ratio) -> f32 {
    ratio.numerator as f32 / ratio.denominator as f32
}

fn store_with(size: Size, escaped: &[Pixel]) -> Vec<Pixel> {
    let mut pixels = create_pixels(size);
    for pixel in escaped {
        pixels[(pixel.y * size.width + pixel.x) as usize] = *pixel;
    }
    pixels
}

#[test]
fn the_default_colour_is_zero_and_not_escaped() {
    let colour = ColourRange::default();
    assert_eq!(colour.escaped, 0);
    assert_eq!(colour.value, Ratio { numerator: 0, denominator: 1 });
    assert_eq!(quotient(colour.value), 0.0);
}

#[test]
fn a_new_colouring_holds_nothing() {
    let colouring = HistogramColouring::new();
    assert_eq!(colouring.total_samples(), 0);
    assert!(colouring.bucket_labels().is_empty());
    assert_eq!(colouring.bucket_count(0), None);
    assert_eq!(colouring.bucket_range(0), None);
    let colouring = HistogramColouring::default();
    assert_eq!(colouring.total_samples(), 0);
    assert!(colouring.bucket_labels().is_empty());
}

#[test]
fn two_by_two_grid_with_three_escaped() {
    let size = Size { width: 2, height: 2 };
    let newly = vec![escaped_at(0, 0, 3), escaped_at(1, 0, 3), escaped_at(0, 1, 5)];
    let all_pixels = store_with(size, &newly);
    let mut colour_ranges = vec![ColourRange::default(); 4];
    let mut colouring = HistogramColouring::new();

    colouring.update_colours(size, &all_pixels, &newly, &mut colour_ranges);

    assert_eq!(colouring.total_samples(), 3);
    assert_eq!(colouring.bucket_labels(), &vec![3, 5]);
    assert_eq!(colouring.bucket_count(3), Some(2));
    assert_eq!(colouring.bucket_count(5), Some(1));
    assert_eq!(colouring.bucket_count(4), None);
    assert_eq!(colouring.bucket_range(3), Some(Ratio { numerator: 0, denominator: 3 }));
    assert_eq!(colouring.bucket_range(5), Some(Ratio { numerator: 2, denominator: 3 }));
    assert_eq!(colouring.bucket_range(4), None);

    assert_eq!(colour_ranges[0].escaped, 1);
    assert_eq!(colour_ranges[1].escaped, 1);
    assert_eq!(colour_ranges[2].escaped, 1);
    assert_eq!(colour_ranges[0].value, colour_ranges[1].value);
    assert_eq!(quotient(colour_ranges[0].value), 0.0);
    assert_eq!(quotient(colour_ranges[1].value), 0.0);
    assert!((quotient(colour_ranges[2].value) - 2.0 / 3.0).abs() < 1e-6);
    assert_eq!(colour_ranges[3], ColourRange::default());
}

#[test]
fn an_empty_batch_changes_nothing() {
    let size = Size { width: 2, height: 2 };
    let newly = vec![escaped_at(1, 1, 7), escaped_at(0, 0, 2)];
    let all_pixels = store_with(size, &newly);
    let mut colour_ranges = vec![ColourRange::default(); 4];
    let mut colouring = HistogramColouring::new();
    colouring.update_colours(size, &all_pixels, &newly, &mut colour_ranges);

    let colours_before = colour_ranges.clone();
    let labels_before = colouring.bucket_labels().clone();
    colouring.update_colours(size, &all_pixels, &[], &mut colour_ranges);

    assert_eq!(colour_ranges, colours_before);
    assert_eq!(colouring.total_samples(), 2);
    assert_eq!(colouring.bucket_labels(), &labels_before);
    assert_eq!(colouring.bucket_range(2), Some(Ratio { numerator: 0, denominator: 2 }));
    assert_eq!(colouring.bucket_range(7), Some(Ratio { numerator: 1, denominator: 2 }));
}

#[test]
fn an_empty_batch_on_a_new_colouring_asks_nothing_of_its_arguments() {
    let mut colour_ranges: Vec<ColourRange> = Vec::new();
    let mut colouring = HistogramColouring::new();
    colouring.update_colours(Size { width: 9, height: 9 }, &[], &[], &mut colour_ranges);
    assert_eq!(colouring.total_samples(), 0);
    assert!(colour_ranges.is_empty());
}

#[test]
fn earlier_colours_shift_when_lower_buckets_fill() {
    let size = Size { width: 3, height: 1 };
    let mut colouring = HistogramColouring::new();
    let mut colour_ranges = vec![ColourRange::default(); 3];

    let first = vec![escaped_at(2, 0, 9)];
    let all_pixels = store_with(size, &first);
    colouring.update_colours(size, &all_pixels, &first, &mut colour_ranges);
    assert_eq!(colour_ranges[2].value, Ratio { numerator: 0, denominator: 1 });

    let second = vec![escaped_at(0, 0, 4), escaped_at(1, 0, 6)];
    let all_pixels = store_with(size, &[first[0], second[0], second[1]]);
    colouring.update_colours(size, &all_pixels, &second, &mut colour_ranges);

    assert_eq!(colouring.total_samples(), 3);
    assert_eq!(colouring.bucket_labels(), &vec![4, 6, 9]);
    assert_eq!(colour_ranges[0].value, Ratio { numerator: 0, denominator: 3 });
    assert_eq!(colour_ranges[1].value, Ratio { numerator: 1, denominator: 3 });
    assert_eq!(colour_ranges[2].value, Ratio { numerator: 2, denominator: 3 });
    assert_eq!(colour_ranges[2].escaped, 1);
}

#[test]
fn ranges_are_a_cumulative_distribution() {
    let size = Size { width: 4, height: 2 };
    let counts = [12u32, 3, 12, 40, 3, 3, 7, 12];
    let newly: Vec<Pixel> = counts
        .iter()
        .enumerate()
        .map(|(index, count)| escaped_at(index as u32 % 4, index as u32 / 4, *count))
        .collect();
    let all_pixels = store_with(size, &newly);
    let mut colour_ranges = vec![ColourRange::default(); 8];
    let mut colouring = HistogramColouring::new();
    colouring.update_colours(size, &all_pixels, &newly, &mut colour_ranges);

    let labels = colouring.bucket_labels().clone();
    assert_eq!(labels, vec![3, 7, 12, 40]);
    let total = colouring.total_samples() as u64;
    assert_eq!(total, 8);
    let mut sum: u64 = 0;
    let mut last: u64 = 0;
    for label in &labels {
        let range = colouring.bucket_range(*label).unwrap();
        assert_eq!(range.denominator, total);
        assert_eq!(range.numerator, sum);
        assert!(range.numerator >= last);
        assert!(range.numerator < range.denominator);
        last = range.numerator;
        sum += colouring.bucket_count(*label).unwrap() as u64;
    }
    assert_eq!(sum, total);
    assert_eq!(colouring.bucket_range(3).unwrap().numerator, 0);
    let greatest = colouring.bucket_range(40).unwrap();
    let share = colouring.bucket_count(40).unwrap() as f32 / total as f32;
    assert!((quotient(greatest) + share - 1.0).abs() < 1e-6);

    for (index, count) in counts.iter().enumerate() {
        assert_eq!(colour_ranges[index].escaped, 1);
        assert_eq!(Some(colour_ranges[index].value), colouring.bucket_range(*count));
    }
}

#[test]
fn only_pixels_held_as_escaped_are_coloured() {
    let size = Size { width: 2, height: 1 };
    let newly = vec![escaped_at(0, 0, 5)];
    let mut all_pixels = store_with(size, &newly);
    all_pixels[1].iteration_count = 5;
    let mut colour_ranges = vec![
        ColourRange { escaped: 0, value: Ratio { numerator: 7, denominator: 9 } },
        ColourRange { escaped: 0, value: Ratio { numerator: 7, denominator: 9 } },
    ];
    let mut colouring = HistogramColouring::new();
    colouring.update_colours(size, &all_pixels, &newly, &mut colour_ranges);
    assert_eq!(
        colour_ranges[0],
        ColourRange { escaped: 1, value: Ratio { numerator: 0, denominator: 1 } }
    );
    assert_eq!(
        colour_ranges[1],
        ColourRange { escaped: 0, value: Ratio { numerator: 7, denominator: 9 } }
    );
}

#[test]
fn reset_forgets_every_point() {
    let size = Size { width: 2, height: 2 };
    let newly = vec![escaped_at(0, 0, 3), escaped_at(1, 1, 8)];
    let all_pixels = store_with(size, &newly);
    let mut colour_ranges = vec![ColourRange::default(); 4];
    let mut colouring = HistogramColouring::new();
    colouring.update_colours(size, &all_pixels, &newly, &mut colour_ranges);
    assert_eq!(colouring.total_samples(), 2);

    colouring.reset();

    assert_eq!(colouring.total_samples(), 0);
    assert!(colouring.bucket_labels().is_empty());
    assert_eq!(colouring.bucket_count(3), None);
    assert_eq!(colouring.bucket_count(8), None);
    assert_eq!(colouring.bucket_range(3), None);
    assert_eq!(colouring.bucket_range(8), None);
}
