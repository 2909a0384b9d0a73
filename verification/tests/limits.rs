use worldgen::limits::{check_dimensions, InvalidArgument};

#[test]
fn sizes_that_the_generator_takes() {
    assert_eq!(check_dimensions(256, 128, 8, 600), Ok(()));
    assert_eq!(check_dimensions(1, 1, 1, 1), Ok(()));
    assert_eq!(check_dimensions(32768, 32767, 65535, 65535), Ok(()));
}

#[test]
fn an_empty_grid_is_turned_down() {
    assert_eq!(check_dimensions(0, 128, 8, 600), Err(InvalidArgument::EmptyGrid));
    assert_eq!(check_dimensions(256, 0, 8, 600), Err(InvalidArgument::EmptyGrid));
    assert_eq!(check_dimensions(0, 0, 0, 0), Err(InvalidArgument::EmptyGrid));
}

#[test]
fn a_grid_too_large_is_turned_down() {
    assert_eq!(check_dimensions(65536, 1, 8, 600), Err(InvalidArgument::GridTooLarge));
    assert_eq!(check_dimensions(1, 65536, 8, 600), Err(InvalidArgument::GridTooLarge));
    // 32768 * 32768 is one cell more than rivers can be routed on
    assert_eq!(check_dimensions(32768, 32768, 8, 600), Err(InvalidArgument::GridTooLarge));
}

#[test]
fn missing_plates_are_turned_down() {
    assert_eq!(check_dimensions(256, 128, 0, 600), Err(InvalidArgument::NoPlates));
    assert_eq!(check_dimensions(256, 128, 8, 0), Err(InvalidArgument::NoPlates));
}

#[test]
fn too_many_plates_are_turned_down() {
    assert_eq!(check_dimensions(256, 128, 65536, 600), Err(InvalidArgument::TooManyPlates));
    assert_eq!(check_dimensions(256, 128, 8, 65536), Err(InvalidArgument::TooManyPlates));
}
