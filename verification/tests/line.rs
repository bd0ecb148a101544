use joeboids::bits::new_buffer_bools;
use joeboids::line::{can_plot_line, plot_line, plot_line_high, plot_line_low, plot_triangle};

fn lit(buffer: &Vec<Vec<bool>>) -> Vec<(i32, i32)> {
    let mut out = vec![];
    for (y, row) in buffer.iter().enumerate() {
        for (x, b) in row.iter().enumerate() {
            if *b {
                out.push((x as i32, y as i32));
            }
        }
    }
    out.sort();
    out
}

#[test]
fn shallow_line() {
    let mut buffer = new_buffer_bools(5, 5);
    plot_line(&mut buffer, (0, 0), (4, 2));
    assert_eq!(lit(&buffer), vec![(0, 0), (1, 0), (2, 1), (3, 1)]);
}

#[test]
fn steep_line() {
    let mut buffer = new_buffer_bools(5, 5);
    plot_line(&mut buffer, (1, 0), (2, 4));
    assert_eq!(lit(&buffer), vec![(1, 0), (1, 1), (1, 2), (2, 3)]);
}

#[test]
fn falling_line() {
    let mut buffer = new_buffer_bools(5, 5);
    plot_line(&mut buffer, (0, 4), (4, 2));
    assert_eq!(lit(&buffer), vec![(0, 4), (1, 4), (2, 3), (3, 3)]);
}

#[test]
fn line_is_clipped_to_the_buffer() {
    let mut buffer = new_buffer_bools(3, 3);
    plot_line(&mut buffer, (-2, -1), (3, 1));
    assert_eq!(lit(&buffer), vec![(0, 0), (1, 0), (2, 1)]);
}

#[test]
fn point_draws_nothing() {
    let mut buffer = new_buffer_bools(3, 3);
    plot_line(&mut buffer, (1, 1), (1, 1));
    assert!(lit(&buffer).is_empty());
}

#[test]
fn line_keeps_lit_pixels() {
    let mut buffer = new_buffer_bools(4, 4);
    buffer[3][3] = true;
    plot_line(&mut buffer, (0, 0), (3, 0));
    assert_eq!(lit(&buffer), vec![(0, 0), (1, 0), (2, 0), (3, 3)]);
}

#[test]
fn low_and_high_directly() {
    let mut a = new_buffer_bools(6, 6);
    plot_line_low(&mut a, (0, 1), (5, 4));
    let mut b = new_buffer_bools(6, 6);
    plot_line_high(&mut b, (1, 0), (4, 5));
    let swapped: Vec<(i32, i32)> = {
        let mut v: Vec<(i32, i32)> = lit(&a).into_iter().map(|(x, y)| (y, x)).collect();
        v.sort();
        v
    };
    assert_eq!(lit(&b), swapped);
    // stepping backwards draws nothing
    let mut c = new_buffer_bools(6, 6);
    plot_line_low(&mut c, (5, 4), (0, 1));
    assert!(lit(&c).is_empty());
}

#[test]
fn low_line_steeper_than_diagonal() {
    // called directly, a step along x moves at most one row
    let mut buffer = new_buffer_bools(6, 6);
    plot_line_low(&mut buffer, (0, 0), (3, 5));
    assert_eq!(lit(&buffer), vec![(0, 0), (1, 1), (2, 2)]);
}

#[test]
fn line_direction_does_not_matter() {
    let pairs = [((0, 0), (7, 3)), ((2, 9), (5, 1)), ((8, 8), (0, 8)), ((3, 0), (3, 9)), ((1, 2), (6, 7))];
    for (p0, p1) in pairs.iter() {
        let mut a = new_buffer_bools(10, 10);
        plot_line(&mut a, *p0, *p1);
        let mut b = new_buffer_bools(10, 10);
        plot_line(&mut b, *p1, *p0);
        assert_eq!(a, b);
    }
}

#[test]
fn line_stays_in_its_box_and_near_the_line() {
    for x0 in 0..6 {
        for y0 in 0..6 {
            for (x1, y1) in [(7, 2), (1, 7), (0, 0), (6, 6), (3, 5)] {
                let mut buffer = new_buffer_bools(8, 8);
                plot_line(&mut buffer, (x0, y0), (x1, y1));
                let extent = ((x1 - x0) as i64).abs().max(((y1 - y0) as i64).abs());
                for (x, y) in lit(&buffer) {
                    assert!(x0.min(x1) <= x && x <= x0.max(x1));
                    assert!(y0.min(y1) <= y && y <= y0.max(y1));
                    let cross = 2 * (x - x0) as i64 * (y1 - y0) as i64
                        - 2 * (y - y0) as i64 * (x1 - x0) as i64;
                    assert!(cross.abs() <= extent);
                }
            }
        }
    }
}

#[test]
fn triangle_outline() {
    let mut buffer = new_buffer_bools(5, 5);
    plot_triangle(&mut buffer, (0, 0), (4, 0), (0, 4));
    assert_eq!(
        lit(&buffer),
        vec![(0, 0), (0, 1), (0, 2), (0, 3), (1, 0), (1, 3), (2, 0), (2, 2), (3, 0), (3, 1), (4, 0)]
    );
}

#[test]
fn arithmetic_limits() {
    assert!(can_plot_line((0, 0), (800, 600)));
    assert!(can_plot_line((-5, 3), (3, -5)));
    assert!(!can_plot_line((i32::MIN, 0), (i32::MAX, 0)));
    assert!(!can_plot_line((0, 0), (i32::MAX, 0)));
    assert!(can_plot_line((0, 0), (1 << 29, 0)));
}
