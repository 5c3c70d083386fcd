use tile_sources::coord::Xyz;

#[test]
fn xyz_format() {
    let xyz = Xyz { z: 1, x: 2, y: 3 };
    assert_eq!(xyz.render(false), "1,2,3");
    assert_eq!(xyz.render(true), "1/2/3");
}

#[test]
fn xyz_format_multi_digit() {
    let xyz = Xyz { z: 20, x: 4294967295, y: 0 };
    assert_eq!(xyz.render(false), "20,4294967295,0");
    assert_eq!(xyz.render(true), "20/4294967295/0");
}
