use textfmt::formatting::Formatting;
use textfmt::FormattingMode::{Binary, Hexadecimal, Regular};
use textfmt::IsAlternate::{No, Yes};
use textfmt::{FormattingFlags, FormattingMode, IsAlternate};

#[test]
fn mode_is_regular() {
    assert!(FormattingMode::Regular.is_regular());
    assert!(!FormattingMode::Hexadecimal.is_regular());
    assert!(!FormattingMode::Binary.is_regular());
}

#[test]
fn mode_method_names() {
    assert_eq!(FormattingMode::Regular.mode_method_name(), None);
    assert_eq!(FormattingMode::Hexadecimal.mode_method_name(), Some("set_hexadecimal_mode"));
    assert_eq!(FormattingMode::Binary.mode_method_name(), Some("set_binary_mode"));
}

#[test]
fn flag_constructors() {
    let f = FormattingFlags::display(IsAlternate::No);
    assert_eq!(f.formatting, Formatting::Display);
    assert_eq!(f.is_alternate, IsAlternate::No);
    let f = FormattingFlags::debug(FormattingMode::Binary, IsAlternate::Yes);
    assert_eq!(f.formatting, Formatting::Debug(FormattingMode::Binary));
    assert_eq!(f.is_alternate, IsAlternate::Yes);
}

#[test]
fn method_names_follow_style() {
    let disp = FormattingFlags::display(IsAlternate::No);
    let dbg = FormattingFlags::debug(FormattingMode::Regular, IsAlternate::No);
    assert_eq!(disp.to_pargument_method_name(), "to_pargument_display");
    assert_eq!(dbg.to_pargument_method_name(), "to_pargument_debug");
    assert_eq!(disp.fmt_method_name(), "const_display_fmt");
    assert_eq!(dbg.fmt_method_name(), "const_debug_fmt");
    assert_eq!(disp.len_method_name(), "const_display_len");
    assert_eq!(dbg.len_method_name(), "const_debug_len");
}

#[test]
fn constant_names_cover_all_six() {
    assert_eq!(FormattingFlags::display(No).flags_constant_name(), "__REG");
    assert_eq!(FormattingFlags::debug(Regular, No).flags_constant_name(), "__REG");
    assert_eq!(FormattingFlags::debug(Hexadecimal, No).flags_constant_name(), "__HEX");
    assert_eq!(FormattingFlags::debug(Binary, No).flags_constant_name(), "__BIN");
    assert_eq!(FormattingFlags::display(Yes).flags_constant_name(), "__A_REG");
    assert_eq!(FormattingFlags::debug(Hexadecimal, Yes).flags_constant_name(), "__A_HEX");
    assert_eq!(FormattingFlags::debug(Binary, Yes).flags_constant_name(), "__A_BIN");
    assert_eq!(FormattingFlags::display(Yes).mode(), Regular);
    assert_eq!(FormattingFlags::debug(Hexadecimal, No).mode(), Hexadecimal);
}
