use clignote::highlight::{heading_color, org_styles, Color, Style};

fn st(fg: Option<Color>, bold: bool, italic: bool, underlined: bool, crossed_out: bool) -> Style {
    Style { fg, bold, italic, underlined, crossed_out }
}

fn plain() -> Style {
    st(None, false, false, false, false)
}

fn dim() -> Style {
    st(Some(Color::DarkGray), false, false, false, false)
}

#[test]
fn heading_line_styles() {
    let title = st(Some(Color::LightBlue), true, false, false, false);
    let todo = st(Some(Color::LightRed), true, false, false, false);
    let mut expected = vec![dim(), title];
    expected.extend(vec![todo; 4]);
    expected.push(title);
    expected.extend(vec![title; 5]);
    expected.extend(vec![dim(); 3]);
    assert_eq!(org_styles("* TODO Task :a:"), expected);
}

#[test]
fn keyword_and_drawer_lines() {
    assert_eq!(org_styles("#+title: x"), vec![dim(); 10]);
    assert_eq!(org_styles(":END:"), vec![st(Some(Color::DarkGray), false, true, false, false); 5]);
    assert_eq!(org_styles(""), Vec::<Style>::new());
}

#[test]
fn list_with_checkbox() {
    let mut expected = vec![plain(); 10];
    expected[0] = st(Some(Color::DarkGray), true, false, false, false);
    for s in expected.iter_mut().skip(2).take(3) {
        *s = st(Some(Color::Green), true, false, false, false);
    }
    assert_eq!(org_styles("- [X] done"), expected);
}

#[test]
fn strikethrough_span() {
    let mut expected = vec![plain(); 10];
    for s in expected.iter_mut().skip(2).take(6) {
        *s = st(Some(Color::DarkGray), false, false, false, true);
    }
    assert_eq!(org_styles("a +gone+ b"), expected);
}

#[test]
fn link_with_description() {
    let mut expected = vec![plain(); 12];
    for s in expected.iter_mut().skip(4).take(5) {
        *s = dim();
    }
    expected[9] = st(Some(Color::Cyan), false, false, true, false);
    expected[10] = dim();
    expected[11] = dim();
    assert_eq!(org_styles("see [[u][d]]"), expected);
}

#[test]
fn heading_colors_by_level() {
    assert_eq!(heading_color(1), Color::LightBlue);
    assert_eq!(heading_color(4), Color::LightMagenta);
    assert_eq!(heading_color(9), Color::LightCyan);
}
