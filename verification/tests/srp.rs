use srp_phat::srp::grid_offsets;

#[test]
fn grid_offsets_cover_the_cube_once_in_order() {
    let g = grid_offsets(2);
    assert_eq!(g.len(), 125);
    let mut expected = Vec::new();
    for ix in -2..=2 {
        for iy in -2..=2 {
            for iz in -2..=2 {
                expected.push((ix, iy, iz));
            }
        }
    }
    assert_eq!(g, expected);
}

#[test]
fn grid_offsets_of_zero_is_the_centre() {
    assert_eq!(grid_offsets(0), vec![(0, 0, 0)]);
}
