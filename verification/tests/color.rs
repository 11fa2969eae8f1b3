use sisko::color::{xterm256, AnsiColor, AnsiStyle, Brightness, Rgb};

#[test]
fn palette_blocks() {
    assert_eq!(xterm256(0), (0, 0, 0));
    assert_eq!(xterm256(9), (255, 0, 0));
    assert_eq!(xterm256(15), (255, 255, 255));
    assert_eq!(xterm256(16), (0, 0, 0));
    assert_eq!(xterm256(196), (255, 0, 0));
    assert_eq!(xterm256(231), (255, 255, 255));
    assert_eq!(xterm256(232), (8, 8, 8));
    assert_eq!(xterm256(255), (238, 238, 238));
}

#[test]
fn constructors_set_boldness() {
    assert_eq!(Rgb::new(1, 2, 3), Rgb { r: 1, g: 2, b: 3, bold: false });
    assert_eq!(Rgb::new(1, 2, 3).bold(), Rgb { r: 1, g: 2, b: 3, bold: true });
    assert_eq!(Rgb::from_ansi_index(1, true), Rgb { r: 255, g: 0, b: 0, bold: true });
    assert_eq!(Rgb::from_ansi_index(1, false), Rgb { r: 128, g: 0, b: 0, bold: false });
    assert_eq!(Rgb::from_xterm(21), Rgb { r: 0, g: 0, b: 255, bold: false });
    assert_eq!(Rgb::new(0x12, 0x34, 0x56).packed(), 0x12_3456);
}

#[test]
fn styles_resolve_to_colors() {
    assert_eq!(Rgb::from_ansi(AnsiColor::Red, false), Some(Rgb::new(232, 88, 88)));
    assert_eq!(Rgb::from_ansi(AnsiColor::Magenta, true), Some(Rgb::new(188, 140, 220).bold()));
    assert_eq!(Rgb::from_ansi(AnsiColor::Default, true), None);
    assert_eq!(Rgb::from_ansi(AnsiColor::Fixed(196), false), Some(Rgb::new(255, 0, 0)));
    let style = AnsiStyle { foreground: Some(AnsiColor::Rgb(7, 8, 9)), is_bold: true };
    assert_eq!(Rgb::from_style(style), Some(Rgb::new(7, 8, 9).bold()));
    assert_eq!(Rgb::from_style(AnsiStyle { foreground: None, is_bold: true }), None);
}

#[test]
fn contrast_depends_on_the_background() {
    let dark = Rgb::new(10, 20, 30);
    assert_eq!(dark.contrast_on(true, Brightness::Dim, (1, 2, 3)), Rgb::new(1, 2, 3));
    assert_eq!(dark.contrast_on(false, Brightness::Dim, (1, 2, 3)), dark);
    let light = Rgb::new(250, 20, 250);
    assert_eq!(light.contrast_on(false, Brightness::Bright, (0, 0, 0)), Rgb::new(150, 12, 150));
    let orange = Rgb::new(255, 200, 100);
    assert_eq!(orange.contrast_on(false, Brightness::Bright, (0, 0, 0)), Rgb::new(153, 120, 60));
    assert_eq!(light.contrast_on(true, Brightness::Bright, (0, 0, 0)), light);
    assert_eq!(light.contrast_on(false, Brightness::Middle, (0, 0, 0)), light);
}
