use vstd::prelude::*;

use crate::modules::renderer::{display_height, spec_display_height};

verus! {

/// Terminal and frame dimensions that let a caller map terminal cells back to
/// frame pixels.
pub struct MappingInfo {
    pub term_w: i32,
    pub term_h: i32,
    /// Pixel height of the rendered map (two pixel rows per terminal line).
    pub display_h: i32,
    /// Size of the last frame handed to the renderer.
    pub frame_w: i32,
    pub frame_h: i32,
}

/// The mapping information for a `term_w` x `term_h` terminal showing a
/// `frame_w` x `frame_h` frame.
pub fn mapping_info(term_w: i32, term_h: i32, frame_w: i32, frame_h: i32) -> (info: MappingInfo)
    requires
        -0x3fff_ffff <= term_h <= 0x4000_0000,
    ensures
        info.term_w == term_w,
        info.term_h == term_h,
        info.display_h == spec_display_height(term_h as int),
        info.frame_w == frame_w,
        info.frame_h == frame_h,
{
    MappingInfo { term_w, term_h, display_h: display_height(term_h), frame_w, frame_h }
}

/// A key press, as far as the viewer distinguishes keys.
pub enum KeyInput {
    Char(char),
    Esc,
    Enter,
    Other,
}

/// `char::to_string`: the string made of the one character `c`.
#[verifier::external_body]
fn char_to_string(c: char) -> (s: String)
    ensures
        s@ == seq![c],
{
    c.to_string()
}

/// The name reported for a key press: the character itself, `"esc"`,
/// `"enter"`, or nothing for other keys.
pub fn key_name(key: KeyInput) -> (name: Option<String>)
    ensures
        match key {
            KeyInput::Char(c) => name matches Some(s) && s@ == seq![c],
            KeyInput::Esc => name matches Some(s) && s@ == "esc"@,
            KeyInput::Enter => name matches Some(s) && s@ == "enter"@,
            KeyInput::Other => name is None,
        },
{
    match key {
        KeyInput::Char(c) => Some(char_to_string(c)),
        KeyInput::Esc => Some(String::from_str("esc")),
        KeyInput::Enter => Some(String::from_str("enter")),
        KeyInput::Other => None,
    }
}

} // verus!
