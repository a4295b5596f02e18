use mandelbrot::colour::{ColourRange, Ratio};
use mandelbrot::engine::{create_colour_ranges, Engine, FramePlan};
use mandelbrot::pixel::{create_pixels, Complex, Pixel};
use mandelbrot::screen::Size;
use mandelbrot::work_list::ReadbackError;

fn record(x: u32, y: u32, escaped: u32, iteration_count: u32) -> Pixel {
    Pixel {
        x,
        y,
        escaped,
        current_value: Complex { real_bits: 0x3f80_0000, imaginary_bits: 0xbf80_0000 },
        iteration_count,
    }
}

fn quotient(ratio: Ratio) -> f32 {
    ratio.numerator as f32 / ratio.denominator as f32
}

fn assert_fresh(engine: &Engine, size: Size) {
    assert_eq!(engine.screen_size(), size);
    assert_eq!(engine.all_pixels(), &create_pixels(size));
    assert_eq!(engine.unescaped_pixels(), &create_pixels(size));
    assert_eq!(engine.unescaped_pixels().len(), (size.width * size.height) as usize);
    assert!(engine.unescaped_pixels().iter().all(|pixel| pixel.escaped == 0));
    assert!(engine.newly_escaped_pixels().is_empty());
    assert_eq!(engine.colour_ranges().len(), (size.width * size.height) as usize);
    assert!(engine.colour_ranges().iter().all(|colour| *colour == ColourRange::default()));
    assert_eq!(engine.colouring().total_samples(), 0);
    assert!(engine.colouring().bucket_labels().is_empty());
}

#[test]
fn a_new_engine_is_fresh() {
    let size = Size { width: 3, height: 2 };
    let engine = Engine::new(size);
    assert_fresh(&engine, size);
    assert_eq!(create_colour_ranges(size), vec![ColourRange::default(); 6]);
}

#[test]
fn end_to_end_two_by_two() {
    let size = Size { width: 2, height: 2 };
    let mut engine = Engine::new(size);

    let plan = engine.begin_frame();
    assert_eq!(
        plan,
        FramePlan { reset: false, total_work: 4, dispatch_size: (1, 1024, 1), copy_size: 96 }
    );

    let readback =
        vec![record(0, 0, 1, 3), record(1, 0, 1, 3), record(0, 1, 1, 5), record(1, 1, 0, 6)];
    assert_eq!(engine.finish_frame(&readback), Ok(()));

    assert_eq!(engine.colouring().total_samples(), 3);
    assert_eq!(
        engine.colouring().bucket_range(3),
        Some(Ratio { numerator: 0, denominator: 3 })
    );
    assert_eq!(
        engine.colouring().bucket_range(5),
        Some(Ratio { numerator: 2, denominator: 3 })
    );
    let colours = engine.colour_ranges();
    assert_eq!(colours[0].value, colours[1].value);
    assert_eq!(quotient(colours[0].value), 0.0);
    assert_eq!(quotient(colours[1].value), 0.0);
    assert!((quotient(colours[2].value) - 2.0 / 3.0).abs() < 1e-6);
    assert_eq!(colours[0].escaped, 1);
    assert_eq!(colours[1].escaped, 1);
    assert_eq!(colours[2].escaped, 1);
    assert_eq!(colours[3], ColourRange::default());
    assert_eq!(engine.unescaped_pixels(), &vec![readback[3]]);
    assert_eq!(engine.newly_escaped_pixels(), &vec![readback[0], readback[1], readback[2]]);
    assert_eq!(engine.all_pixels()[0], readback[0]);
    assert_eq!(engine.all_pixels()[1], readback[1]);
    assert_eq!(engine.all_pixels()[2], readback[2]);
    assert_eq!(engine.all_pixels()[3], create_pixels(size)[3]);

    let plan = engine.begin_frame();
    assert_eq!(plan.total_work, 1);
    assert_eq!(plan.copy_size, 24);
    assert!(!plan.reset);
}

#[test]
fn a_frame_without_escapes_keeps_the_colours() {
    let size = Size { width: 2, height: 2 };
    let mut engine = Engine::new(size);
    engine.begin_frame();
    let first =
        vec![record(0, 0, 1, 3), record(1, 0, 0, 3), record(0, 1, 1, 5), record(1, 1, 0, 6)];
    assert_eq!(engine.finish_frame(&first), Ok(()));
    let colours = engine.colour_ranges().clone();

    engine.begin_frame();
    // The staging buffer still holds all four records of the first frame.
    let second =
        vec![record(1, 0, 0, 4), record(1, 1, 0, 7), record(0, 1, 1, 5), record(1, 1, 0, 6)];
    assert_eq!(engine.finish_frame(&second), Ok(()));

    assert_eq!(engine.colour_ranges(), &colours);
    assert_eq!(engine.colouring().total_samples(), 2);
    assert!(engine.newly_escaped_pixels().is_empty());
    assert_eq!(engine.unescaped_pixels(), &vec![second[0], second[1]]);
}

#[test]
fn later_escapes_recolour_earlier_ones() {
    let size = Size { width: 2, height: 2 };
    let mut engine = Engine::new(size);
    engine.begin_frame();
    let first =
        vec![record(0, 0, 0, 1), record(1, 0, 0, 1), record(0, 1, 0, 1), record(1, 1, 1, 9)];
    assert_eq!(engine.finish_frame(&first), Ok(()));
    assert_eq!(engine.colour_ranges()[3].value, Ratio { numerator: 0, denominator: 1 });

    assert_eq!(engine.begin_frame().total_work, 3);
    let second = vec![record(0, 0, 1, 2), record(1, 0, 0, 2), record(0, 1, 1, 4)];
    assert_eq!(engine.finish_frame(&second), Ok(()));

    assert_eq!(engine.colouring().bucket_labels(), &vec![2, 4, 9]);
    assert_eq!(engine.colour_ranges()[0].value, Ratio { numerator: 0, denominator: 3 });
    assert_eq!(engine.colour_ranges()[2].value, Ratio { numerator: 1, denominator: 3 });
    assert_eq!(engine.colour_ranges()[3].value, Ratio { numerator: 2, denominator: 3 });
    assert_eq!(engine.colour_ranges()[1], ColourRange::default());
    assert_eq!(engine.begin_frame().total_work, 1);
}

#[test]
fn a_malformed_record_stops_the_frame_and_changes_nothing() {
    let size = Size { width: 2, height: 2 };
    let mut engine = Engine::new(size);
    engine.begin_frame();
    let readback =
        vec![record(0, 0, 1, 3), record(1, 0, 1, 3), record(0, 2, 1, 5), record(1, 1, 3, 6)];
    assert_eq!(engine.finish_frame(&readback), Err(ReadbackError::OutOfBounds { index: 2 }));
    assert_fresh(&engine, size);

    let readback =
        vec![record(0, 0, 1, 3), record(1, 0, 1, 3), record(0, 1, 1, 5), record(1, 1, 3, 6)];
    assert_eq!(engine.finish_frame(&readback), Err(ReadbackError::BadEscapeFlag { index: 3 }));
    assert_fresh(&engine, size);
}

#[test]
fn reset_clears_state() {
    let size = Size { width: 3, height: 3 };
    let mut engine = Engine::new(size);
    engine.begin_frame();
    let readback: Vec<Pixel> =
        (0..9u32).map(|index| record(index % 3, index / 3, index % 2, index + 10)).collect();
    assert_eq!(engine.finish_frame(&readback), Ok(()));
    assert_eq!(engine.colouring().total_samples(), 4);
    assert_eq!(engine.unescaped_pixels().len(), 5);

    engine.reset();

    assert_fresh(&engine, size);
    assert_eq!(engine.unescaped_pixels().len(), 9);
    assert_eq!(engine.colouring().bucket_count(11), None);
    assert_eq!(engine.colouring().bucket_range(11), None);
}

#[test]
fn zoom_and_origin_changes_collapse_into_one_reset() {
    let size = Size { width: 2, height: 2 };
    let mut engine = Engine::new(size);
    engine.begin_frame();
    let readback =
        vec![record(0, 0, 1, 3), record(1, 0, 1, 3), record(0, 1, 1, 5), record(1, 1, 0, 6)];
    assert_eq!(engine.finish_frame(&readback), Ok(()));

    engine.zoom_changed();
    engine.zoom_changed();
    engine.origin_changed();
    // Nothing starts over before the next frame begins.
    assert_eq!(engine.colouring().total_samples(), 3);

    let plan = engine.begin_frame();
    assert!(plan.reset);
    assert_eq!(plan.total_work, 4);
    assert_fresh(&engine, size);

    let plan = engine.begin_frame();
    assert!(!plan.reset);
    assert_eq!(plan.total_work, 4);
}

#[test]
fn an_origin_change_alone_resets() {
    let mut engine = Engine::new(Size { width: 1, height: 1 });
    engine.begin_frame();
    assert_eq!(engine.finish_frame(&[record(0, 0, 1, 2)]), Ok(()));
    assert_eq!(engine.begin_frame().total_work, 0);
    engine.origin_changed();
    let plan = engine.begin_frame();
    assert!(plan.reset);
    assert_eq!(plan.total_work, 1);
}

#[test]
fn resize_starts_over_on_the_new_grid() {
    let mut engine = Engine::new(Size { width: 2, height: 2 });
    engine.begin_frame();
    let readback =
        vec![record(0, 0, 1, 3), record(1, 0, 1, 3), record(0, 1, 1, 5), record(1, 1, 0, 6)];
    assert_eq!(engine.finish_frame(&readback), Ok(()));

    let size = Size { width: 4, height: 3 };
    engine.resize(size);
    assert_fresh(&engine, size);
    let plan = engine.begin_frame();
    assert!(!plan.reset);
    assert_eq!(plan.total_work, 12);
    assert_eq!(plan.copy_size, 288);
}

#[test]
fn an_empty_grid_plans_an_empty_frame() {
    let mut engine = Engine::new(Size { width: 0, height: 5 });
    let plan = engine.begin_frame();
    assert_eq!(plan.total_work, 0);
    assert_eq!(plan.dispatch_size, (1, 1024, 1));
    assert_eq!(plan.copy_size, 0);
    assert_eq!(engine.finish_frame(&[]), Ok(()));
}
