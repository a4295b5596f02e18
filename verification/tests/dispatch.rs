use mandelbrot::compute::{
    mandelbrot_dispatch_size, MANDELBROT_DISPATCH_SIZE_Y, MANDELBROT_WORKGROUP_SIZE_Y,
    MAX_WORKGROUPS_PER_DIMENSION,
};

fn invocations(shape: (u32, u32, u32)) -> u64 {
    shape.0 as u64 * shape.1 as u64 * shape.2 as u64 * MANDELBROT_WORKGROUP_SIZE_Y as u64
}

#[test]
fn empty_work_list_gets_one_column() {
    let shape = mandelbrot_dispatch_size(0);
    assert_eq!(shape, (1, 1024, 1));
    assert!(shape.0 >= 1);
}

#[test]
fn one_point_gets_one_column() {
    assert_eq!(mandelbrot_dispatch_size(1), (1, 1024, 1));
}

#[test]
fn a_full_column_gets_a_spare_column() {
    assert_eq!(mandelbrot_dispatch_size(65535), (1, 1024, 1));
    assert_eq!(mandelbrot_dispatch_size(65536), (2, 1024, 1));
    assert_eq!(mandelbrot_dispatch_size(65537), (2, 1024, 1));
    assert_eq!(mandelbrot_dispatch_size(131072), (3, 1024, 1));
}

#[test]
fn a_large_screen_is_covered() {
    // 3840 * 2160 points
    assert_eq!(mandelbrot_dispatch_size(8_294_400), (127, 1024, 1));
    assert_eq!(mandelbrot_dispatch_size(50_000_000), (763, 1024, 1));
}

#[test]
fn dispatch_never_falls_short_of_the_work() {
    let mut total_work: usize = 0;
    while total_work <= 50_000_000 {
        let shape = mandelbrot_dispatch_size(total_work);
        assert_eq!(shape.1, MANDELBROT_DISPATCH_SIZE_Y);
        assert_eq!(shape.2, 1);
        assert!(shape.0 >= 1);
        assert!(shape.1 <= MAX_WORKGROUPS_PER_DIMENSION);
        assert!(invocations(shape) > total_work as u64);
        assert!(invocations(shape) - 65536 <= total_work as u64);
        total_work += 9973;
    }
    let shape = mandelbrot_dispatch_size(50_000_000);
    assert!(invocations(shape) >= 50_000_000);
}
