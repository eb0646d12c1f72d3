use raytrace::ppm::encode_ppm;

#[test]
fn two_pixel_image() {
    let bytes = encode_ppm(2, 1, &vec![[255, 0, 7], [0, 128, 255]]);
    assert_eq!(
        String::from_utf8(bytes).unwrap(),
        "P3\n2 1\n255\n255 0 7\n0 128 255\n"
    );
}

#[test]
fn empty_image_is_only_a_header() {
    let bytes = encode_ppm(0, 0, &vec![]);
    assert_eq!(String::from_utf8(bytes).unwrap(), "P3\n0 0\n255\n");
}

#[test]
fn wide_header() {
    let bytes = encode_ppm(65535, 10, &vec![[9, 10, 99]]);
    assert_eq!(
        String::from_utf8(bytes).unwrap(),
        "P3\n65535 10\n255\n9 10 99\n"
    );
}
