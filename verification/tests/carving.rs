use seam_carver::{
    calculate_energy_map, delete_seam, find_low_energy_seam, resize_image, CarveError, Color,
    Picture, PixelLocation, Seam,
};

fn rgb(red: u8, green: u8, blue: u8) -> Color {
    Color { red, green, blue }
}

fn picture_of(rows: &[Vec<Color>]) -> Picture {
    let height = rows.len() as u32;
    let width = if rows.is_empty() { 0 } else { rows[0].len() as u32 };
    let mut picture = Picture::new(width, height).unwrap();
    for (y, row) in rows.iter().enumerate() {
        for (x, color) in row.iter().enumerate() {
            picture.put_pixel(x as u32, y as u32, *color);
        }
    }
    picture
}

fn pixels_of(picture: &Picture) -> Vec<Vec<Color>> {
    let mut rows = Vec::new();
    for y in 0..picture.height() {
        let mut row = Vec::new();
        for x in 0..picture.width() {
            row.push(picture.get_pixel(x, y));
        }
        rows.push(row);
    }
    rows
}

fn seam_through(columns: &[u32]) -> Seam {
    let locations =
        columns.iter().enumerate().map(|(y, x)| PixelLocation { x: *x, y: y as u32 }).collect();
    Seam { locations }
}

fn numbered(width: u8, height: u8) -> Vec<Vec<Color>> {
    (0..height).map(|y| (0..width).map(|x| rgb(x, y, 100)).collect()).collect()
}

#[test]
fn delete_seam_removes_the_named_pixel_of_each_row() {
    let rows = numbered(4, 3);
    let picture = picture_of(&rows);
    let cut = delete_seam(&picture, &seam_through(&[1, 2, 3])).unwrap();
    assert_eq!(cut.dimensions(), (3, 3));
    assert_eq!(
        pixels_of(&cut),
        vec![
            vec![rgb(0, 0, 100), rgb(2, 0, 100), rgb(3, 0, 100)],
            vec![rgb(0, 1, 100), rgb(1, 1, 100), rgb(3, 1, 100)],
            vec![rgb(0, 2, 100), rgb(1, 2, 100), rgb(2, 2, 100)],
        ]
    );
}

#[test]
fn delete_seam_leaves_the_input_as_it_was() {
    let rows = numbered(3, 2);
    let picture = picture_of(&rows);
    let _ = delete_seam(&picture, &seam_through(&[0, 2])).unwrap();
    assert_eq!(picture.dimensions(), (3, 2));
    assert_eq!(pixels_of(&picture), rows);
}

#[test]
fn delete_seam_keeps_every_other_pixel_in_order() {
    let rows = numbered(6, 4);
    let picture = picture_of(&rows);
    let columns = [5, 4, 3, 4];
    let cut = delete_seam(&picture, &seam_through(&columns)).unwrap();
    assert_eq!(cut.width(), 5);
    assert_eq!(cut.height(), 4);
    for y in 0..4u32 {
        let mut expected = rows[y as usize].clone();
        expected.remove(columns[y as usize] as usize);
        assert_eq!(pixels_of(&cut)[y as usize], expected);
    }
}

#[test]
fn delete_seam_of_the_only_column_leaves_no_column() {
    let picture = picture_of(&numbered(1, 3));
    let cut = delete_seam(&picture, &seam_through(&[0, 0, 0])).unwrap();
    assert_eq!(cut.dimensions(), (0, 3));
}

#[test]
fn delete_seam_refuses_a_seam_of_another_height() {
    let picture = picture_of(&numbered(3, 3));
    let short = delete_seam(&picture, &seam_through(&[0, 0]));
    assert!(matches!(short, Err(CarveError::SeamRowMismatch)));
    let long = delete_seam(&picture, &seam_through(&[0, 0, 0, 0]));
    assert!(matches!(long, Err(CarveError::SeamRowMismatch)));
    let none = delete_seam(&picture, &Seam { locations: Vec::new() });
    assert!(matches!(none, Err(CarveError::SeamRowMismatch)));
}

#[test]
fn delete_seam_refuses_a_row_named_twice() {
    let picture = picture_of(&numbered(3, 3));
    let seam = Seam {
        locations: vec![
            PixelLocation { x: 0, y: 0 },
            PixelLocation { x: 1, y: 0 },
            PixelLocation { x: 2, y: 2 },
        ],
    };
    assert!(matches!(delete_seam(&picture, &seam), Err(CarveError::SeamRowMismatch)));
}

#[test]
fn delete_seam_refuses_rows_out_of_order() {
    let picture = picture_of(&numbered(3, 2));
    let seam =
        Seam { locations: vec![PixelLocation { x: 0, y: 1 }, PixelLocation { x: 0, y: 0 }] };
    assert!(matches!(delete_seam(&picture, &seam), Err(CarveError::SeamRowMismatch)));
}

#[test]
fn delete_seam_refuses_a_column_outside_the_picture() {
    let picture = picture_of(&numbered(3, 2));
    assert!(matches!(
        delete_seam(&picture, &seam_through(&[0, 3])),
        Err(CarveError::SeamRowMismatch)
    ));
}

#[test]
fn delete_seam_refuses_a_picture_without_columns() {
    let picture = Picture::new(0, 0).unwrap();
    let cut = delete_seam(&picture, &Seam { locations: Vec::new() });
    assert!(matches!(cut, Err(CarveError::InvalidDimensions)));
    let picture = Picture::new(0, 2).unwrap();
    let cut = delete_seam(&picture, &seam_through(&[0, 0]));
    assert!(matches!(cut, Err(CarveError::SeamRowMismatch)));
}

#[test]
fn uniform_picture_loses_its_first_column() {
    let picture = picture_of(&vec![vec![rgb(7, 7, 7); 4]; 3]);
    let map = calculate_energy_map(&picture).unwrap();
    for y in 0..3 {
        for x in 0..4 {
            assert_eq!(map.get(x, y), 0);
        }
    }
    let seam = find_low_energy_seam(&map).unwrap();
    assert_eq!(
        seam.locations,
        vec![
            PixelLocation { x: 0, y: 0 },
            PixelLocation { x: 0, y: 1 },
            PixelLocation { x: 0, y: 2 },
        ]
    );
    let cut = delete_seam(&picture, &seam).unwrap();
    assert_eq!(cut.dimensions(), (3, 3));
    assert_eq!(pixels_of(&cut), vec![vec![rgb(7, 7, 7); 3]; 3]);
}

#[test]
fn resize_by_the_whole_width_is_refused() {
    let picture = picture_of(&numbered(4, 2));
    assert!(matches!(resize_image(picture, 4), Err(CarveError::InvalidTrimWidth)));
}

#[test]
fn resize_by_more_than_the_width_is_refused() {
    let picture = picture_of(&numbered(4, 2));
    assert!(matches!(resize_image(picture, 5), Err(CarveError::InvalidTrimWidth)));
    let picture = picture_of(&numbered(4, 2));
    assert!(matches!(resize_image(picture, u32::MAX), Err(CarveError::InvalidTrimWidth)));
}

#[test]
fn resize_of_a_picture_without_columns_is_refused() {
    let picture = Picture::new(0, 3).unwrap();
    assert!(matches!(resize_image(picture, 0), Err(CarveError::InvalidTrimWidth)));
}

#[test]
fn resize_of_a_picture_without_rows_is_refused() {
    let picture = Picture::new(3, 0).unwrap();
    assert!(matches!(resize_image(picture, 1), Err(CarveError::InvalidDimensions)));
}

#[test]
fn resize_by_nothing_returns_the_same_pixels() {
    let rows = vec![
        vec![rgb(1, 2, 3), rgb(40, 50, 60), rgb(7, 8, 9)],
        vec![rgb(0, 0, 0), rgb(255, 255, 255), rgb(128, 64, 32)],
    ];
    let resized = resize_image(picture_of(&rows), 0).unwrap();
    assert_eq!(resized.dimensions(), (3, 2));
    assert_eq!(pixels_of(&resized), rows);
}

#[test]
fn resize_by_nothing_accepts_a_picture_without_rows() {
    let resized = resize_image(Picture::new(3, 0).unwrap(), 0).unwrap();
    assert_eq!(resized.dimensions(), (3, 0));
}

#[test]
fn resize_five_by_two_down_to_three_by_two() {
    let rows = vec![
        vec![rgb(10, 0, 0), rgb(20, 0, 0), rgb(90, 0, 0), rgb(100, 0, 0), rgb(105, 0, 0)],
        vec![rgb(0, 10, 0), rgb(0, 50, 0), rgb(0, 55, 0), rgb(0, 200, 0), rgb(0, 210, 0)],
    ];
    let resized = resize_image(picture_of(&rows), 2).unwrap();
    assert_eq!(resized.dimensions(), (3, 2));
    let left = pixels_of(&resized);
    assert_eq!(
        left,
        vec![
            vec![rgb(90, 0, 0), rgb(100, 0, 0), rgb(105, 0, 0)],
            vec![rgb(0, 55, 0), rgb(0, 200, 0), rgb(0, 210, 0)],
        ]
    );
    for (y, row) in rows.iter().enumerate() {
        let mut removed: Vec<usize> = Vec::new();
        let mut next = 0;
        for (x, color) in row.iter().enumerate() {
            if next < left[y].len() && left[y][next] == *color {
                next += 1;
            } else {
                removed.push(x);
            }
        }
        assert_eq!(next, 3);
        assert_eq!(removed.len(), 2);
        assert_ne!(removed[0], removed[1]);
    }
}

#[test]
fn resize_recomputes_the_seam_from_the_narrowed_picture() {
    let rows = vec![
        vec![rgb(10, 0, 0), rgb(20, 0, 0), rgb(90, 0, 0), rgb(100, 0, 0), rgb(105, 0, 0)],
        vec![rgb(0, 10, 0), rgb(0, 50, 0), rgb(0, 55, 0), rgb(0, 200, 0), rgb(0, 210, 0)],
    ];
    let mut current = picture_of(&rows);
    let mut removed: Vec<Vec<Color>> = Vec::new();
    for _ in 0..2 {
        let map = calculate_energy_map(&current).unwrap();
        let seam = find_low_energy_seam(&map).unwrap();
        removed.push(
            seam.locations.iter().map(|location| current.get_pixel(location.x, location.y)).collect(),
        );
        current = delete_seam(&current, &seam).unwrap();
    }
    assert_eq!(removed[0], vec![rgb(10, 0, 0), rgb(0, 10, 0)]);
    assert_eq!(removed[1], vec![rgb(20, 0, 0), rgb(0, 50, 0)]);
    let resized = resize_image(picture_of(&rows), 2).unwrap();
    assert_eq!(pixels_of(&resized), pixels_of(&current));
}

#[test]
fn resize_is_the_three_steps_folded() {
    let rows: Vec<Vec<Color>> = (0..5u8)
        .map(|y| (0..7u8).map(|x| rgb(x.wrapping_mul(37) ^ y, y.wrapping_mul(91), x + y)).collect())
        .collect();
    for trim_width in 0..7u32 {
        let mut current = picture_of(&rows);
        for _ in 0..trim_width {
            let map = calculate_energy_map(&current).unwrap();
            let seam = find_low_energy_seam(&map).unwrap();
            current = delete_seam(&current, &seam).unwrap();
        }
        let resized = resize_image(picture_of(&rows), trim_width).unwrap();
        assert_eq!(resized.width(), 7 - trim_width);
        assert_eq!(resized.height(), 5);
        assert_eq!(pixels_of(&resized), pixels_of(&current));
    }
}

#[test]
fn resize_down_to_one_column() {
    let resized = resize_image(picture_of(&numbered(4, 2)), 3).unwrap();
    assert_eq!(resized.dimensions(), (1, 2));
    assert_eq!(pixels_of(&resized), vec![vec![rgb(3, 0, 100)], vec![rgb(3, 1, 100)]]);
}
