use robin::window::{blit_view, WHITE};

#[test]
fn view_shows_scrolled_rows_and_white_below() {
    let page = vec![1u32, 2, 3, 4, 5, 6]; // 2 wide, 3 rows
    let mut view = vec![0u32; 4]; // 2 wide, 2 rows
    blit_view(&page, &mut view, 2, 2, 3, 1);
    assert_eq!(view, vec![3, 4, 5, 6]);
    blit_view(&page, &mut view, 2, 2, 3, 2);
    assert_eq!(view, vec![5, 6, WHITE, WHITE]);
}
