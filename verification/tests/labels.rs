use elfvis::color::Color;
use elfvis::label::strip_extension;

#[test]
fn css_color_is_rgb_in_decimal() {
    assert_eq!(Color { r: 72, g: 199, b: 142 }.to_css(), "rgb(72,199,142)");
    assert_eq!(Color { r: 0, g: 5, b: 255 }.to_css(), "rgb(0,5,255)");
    assert_eq!(Color { r: 100, g: 10, b: 9 }.to_css(), "rgb(100,10,9)");
}

#[test]
fn extension_is_stripped_only_when_it_has_a_stem_and_a_suffix() {
    assert_eq!(strip_extension("main.c"), "main");
    assert_eq!(strip_extension("archive.tar.gz"), "archive.tar");
    assert_eq!(strip_extension(".hidden"), ".hidden");
    assert_eq!(strip_extension("trailing."), "trailing.");
    assert_eq!(strip_extension("noext"), "noext");
    assert_eq!(strip_extension(""), "");
    assert_eq!(strip_extension("dir.d/file"), "dir");
}
