use rikky_modoki::contour::bordering;

fn picture(width: usize, height: usize, alpha: &[u8]) -> Vec<u8> {
    assert_eq!(alpha.len(), width * height);
    let mut pixels = Vec::new();
    for &a in alpha {
        pixels.extend_from_slice(&[10, 20, 30, a]);
    }
    pixels
}

#[test]
fn a_square_is_traced_counter_clockwise_from_its_upper_left() {
    let pixels = picture(3, 3, &[255; 9]);
    let (points, counts) = bordering(&pixels, 3, 3, 0, 0, false);
    assert_eq!(points, vec![0, 3, 6, 7, 8, 5, 2, 1]);
    assert_eq!(counts, vec![8]);
}

#[test]
fn skipping_keeps_every_other_point() {
    let pixels = picture(3, 3, &[255; 9]);
    let (points, counts) = bordering(&pixels, 3, 3, 1, 0, false);
    assert_eq!(points, vec![0, 6, 8, 2]);
    assert_eq!(counts, vec![4]);
}

#[test]
fn contours_of_four_points_or_fewer_are_dropped() {
    let pixels = picture(2, 2, &[255; 4]);
    assert_eq!(bordering(&pixels, 2, 2, 0, 0, false), (vec![], vec![]));
    let single = picture(3, 3, &[0, 0, 0, 0, 255, 0, 0, 0, 0]);
    assert_eq!(bordering(&single, 3, 3, 0, 0, false), (vec![], vec![]));
}

#[test]
fn alpha_at_the_limit_counts_as_clear() {
    let pixels = picture(3, 3, &[100; 9]);
    assert_eq!(bordering(&pixels, 3, 3, 0, 100, false), (vec![], vec![]));
    assert_eq!(bordering(&pixels, 3, 3, 0, 99, false).1, vec![8]);
}

#[test]
fn an_empty_picture_has_no_contours() {
    assert_eq!(bordering(&[], 0, 5, 0, 0, true), (vec![], vec![]));
}

#[test]
fn every_point_belongs_to_a_counted_contour() {
    let alpha = [
        0, 255, 255, 0, 0, //
        255, 255, 255, 255, 0, //
        0, 255, 0, 255, 255, //
        0, 255, 255, 255, 0, //
    ];
    let pixels = picture(5, 4, &alpha);
    for hq in [false, true] {
        let (points, counts) = bordering(&pixels, 5, 4, 0, 0, hq);
        assert_eq!(counts.iter().sum::<usize>(), points.len());
        assert!(counts.iter().all(|&c| c > 4));
        assert!(points.iter().all(|&p| p < 20 && alpha[p] == 255));
        if !hq {
            let clear = |x: i64, y: i64| !(0..5).contains(&x) || !(0..4).contains(&y) || alpha[(y * 5 + x) as usize] == 0;
            for &p in &points {
                let (x, y) = ((p % 5) as i64, (p / 5) as i64);
                assert!(clear(x - 1, y) || clear(x + 1, y) || clear(x, y - 1) || clear(x, y + 1));
            }
        }
    }
}
