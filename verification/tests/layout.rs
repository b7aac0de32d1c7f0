use md_core::layout::{layout_text, parse_layout, track_geometry, Geometry, Layout};

fn geometry(l: &Layout) -> Option<(i32, i32, u32, u32)> {
    l.geometry.as_ref().map(|g| (g.x, g.y, g.width, g.height))
}

#[test]
fn layout_is_read_from_the_config_file() {
    let l = parse_layout("zoom=1.250\nx=10\ny=-20\nwidth=1200\nheight=900\nmaximized=true\n");
    assert_eq!(geometry(&l), Some((10, -20, 1200, 900)));
    assert!(l.maximized);
}

#[test]
fn implausible_layouts_fall_back_to_the_default() {
    // Windows' minimized parking position.
    assert_eq!(geometry(&parse_layout("x=-32000\ny=-32000\nwidth=1000\nheight=800\n")), None);
    // Too small.
    assert_eq!(geometry(&parse_layout("x=0\ny=0\nwidth=150\nheight=800\n")), None);
    // Corrupted or missing lines.
    assert_eq!(geometry(&parse_layout("x=0\ny=zero\nwidth=1000\nheight=800\n")), None);
    assert_eq!(geometry(&parse_layout("x=0\nwidth=1000\nheight=800\n")), None);
    assert_eq!(geometry(&parse_layout("x=99999999999\ny=0\nwidth=1000\nheight=800\n")), None);
    assert_eq!(geometry(&parse_layout("")), None);
    assert!(!parse_layout("maximized=yes\n").maximized);
}

#[test]
fn a_corrupted_line_does_not_hide_a_later_good_one() {
    let l = parse_layout("x=oops\nx= 5 \ny=6\nwidth=300\nheight=400\n");
    assert_eq!(geometry(&l), Some((5, 6, 300, 400)));
}

#[test]
fn written_layouts_read_back() {
    for (g, m) in [(Some((-5, 7, 640, 480)), false), (Some((0, 0, 200, 200)), true), (None, true), (None, false)] {
        let layout = Layout {
            geometry: g.map(|(x, y, width, height)| Geometry { x, y, width, height }),
            maximized: m,
        };
        let text = layout_text(&layout);
        let back = parse_layout(&text);
        assert_eq!(geometry(&back), g, "text: {text}");
        assert_eq!(back.maximized, m);
    }
    let l = Layout { geometry: Some(Geometry { x: -5, y: 7, width: 640, height: 480 }), maximized: false };
    assert_eq!(layout_text(&l), "x=-5\ny=7\nwidth=640\nheight=480\nmaximized=false\n");
}

#[test]
fn maximizing_keeps_the_normal_geometry() {
    let normal = Layout { geometry: Some(Geometry { x: 1, y: 2, width: 800, height: 600 }), maximized: false };
    let max = track_geometry(&normal, true, Geometry { x: 0, y: 0, width: 1920, height: 1080 });
    assert_eq!(geometry(&max), Some((1, 2, 800, 600)));
    assert!(max.maximized);
    let moved = track_geometry(&max, false, Geometry { x: 30, y: 40, width: 700, height: 500 });
    assert_eq!(geometry(&moved), Some((30, 40, 700, 500)));
    assert!(!moved.maximized);
}
