use termvis::session::{key_name, mapping_info, KeyInput};

#[test]
fn mapping_info_fields() {
    let info = mapping_info(120, 40, 640, 480);
    assert_eq!(info.term_w, 120);
    assert_eq!(info.term_h, 40);
    assert_eq!(info.display_h, 78);
    assert_eq!(info.frame_w, 640);
    assert_eq!(info.frame_h, 480);
    assert_eq!(mapping_info(80, 1, 0, 0).display_h, 2);
}

#[test]
fn key_names() {
    assert_eq!(key_name(KeyInput::Char('q')), Some("q".to_string()));
    assert_eq!(key_name(KeyInput::Char('é')), Some("é".to_string()));
    assert_eq!(key_name(KeyInput::Esc), Some("esc".to_string()));
    assert_eq!(key_name(KeyInput::Enter), Some("enter".to_string()));
    assert_eq!(key_name(KeyInput::Other), None);
}
