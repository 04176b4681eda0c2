use chess::render::render_bb;

#[test]
fn empty_board_renders_as_zeros() {
    let text = String::from_utf8(render_bb(0)).unwrap();
    let rank = "0 0 0 0 0 0 0 0 \n";
    assert_eq!(text, format!("{}\n", rank.repeat(8)));
}

#[test]
fn members_render_green_with_the_last_rank_on_top() {
    // a1 (0) is bottom left, h8 (63) top right, b3 (17) in between
    let text = String::from_utf8(render_bb(1 | (1 << 17) | (1 << 63))).unwrap();
    let one = "\x1b[32m1 \x1b[0m";
    let lines: Vec<&str> = text.split('\n').collect();
    assert_eq!(lines.len(), 10);
    assert_eq!(lines[0], format!("0 0 0 0 0 0 0 {}", one));
    assert_eq!(lines[5], format!("0 {}0 0 0 0 0 0 ", one));
    assert_eq!(lines[7], format!("{}0 0 0 0 0 0 0 ", one));
    assert_eq!(lines[6], "0 0 0 0 0 0 0 0 ");
    assert_eq!(lines[8], "");
    assert_eq!(lines[9], "");
}
