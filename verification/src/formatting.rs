//! Format-plan flag types: for each parsed argument, the rendering style
//! (display or debug), the numeric base, and the alternate flag, together
//! with the method and constant names that a rendering plan selects.

use vstd::prelude::*;

verus! {

/// Numeric base of a rendering: regular decimal, hexadecimal or binary.
#[derive(Clone, Copy, Debug, PartialEq, Eq, Structural)]
pub enum FormattingMode {
    Regular,
    Hexadecimal,
    Binary,
}

impl FormattingMode {
    /// True for the regular (decimal) base.
    pub fn is_regular(self) -> (r: bool)
        ensures
            r == (self == FormattingMode::Regular),
    {
        match self {
            FormattingMode::Regular => true,
            _ => false,
        }
    }

    /// The name of the flag-builder method the base selects; the regular
    /// base selects none.
    pub fn mode_method_name(self) -> (r: Option<&'static str>)
        ensures
            match self {
                FormattingMode::Regular => r is None,
                FormattingMode::Hexadecimal => r matches Some(s) && s@ == "set_hexadecimal_mode"@,
                FormattingMode::Binary => r matches Some(s) && s@ == "set_binary_mode"@,
            },
    {
        match self {
            FormattingMode::Regular => None,
            FormattingMode::Hexadecimal => Some("set_hexadecimal_mode"),
            FormattingMode::Binary => Some("set_binary_mode"),
        }
    }
}

/// Whether the alternate flag is set on an argument.
#[derive(Clone, Copy, Debug, PartialEq, Eq, Structural)]
pub enum IsAlternate {
    Yes,
    No,
}

/// Rendering style of an argument: debug — carrying a numeric base — or
/// display.
#[derive(Clone, Copy, Debug, PartialEq, Eq, Structural)]
pub enum Formatting {
    Debug(FormattingMode),
    Display,
}

/// The formatting flags of one argument: its rendering style and its
/// alternate flag.
#[derive(Clone, Copy, Debug, PartialEq, Eq, Structural)]
pub struct FormattingFlags {
    pub formatting: Formatting,
    pub is_alternate: IsAlternate,
}

impl FormattingFlags {
    /// Display rendering with the given alternate flag.
    pub fn display(is_alternate: IsAlternate) -> (r: Self)
        ensures
            r == (FormattingFlags { formatting: Formatting::Display, is_alternate }),
    {
        Self { formatting: Formatting::Display, is_alternate }
    }

    /// Debug rendering in the given base, with the given alternate flag.
    pub fn debug(mode: FormattingMode, is_alternate: IsAlternate) -> (r: Self)
        ensures
            r == (FormattingFlags { formatting: Formatting::Debug(mode), is_alternate }),
    {
        Self { formatting: Formatting::Debug(mode), is_alternate }
    }

    /// The numeric base the flags render in: debug keeps its base, display
    /// renders regular.
    pub open spec fn spec_mode(self) -> FormattingMode {
        match self.formatting {
            Formatting::Display => FormattingMode::Regular,
            Formatting::Debug(m) => m,
        }
    }

    /// The numeric base the flags render in.
    pub fn mode(self) -> (r: FormattingMode)
        ensures
            r == self.spec_mode(),
    {
        match self.formatting {
            Formatting::Display => FormattingMode::Regular,
            Formatting::Debug(m) => m,
        }
    }

    /// The name of the argument-conversion method the style selects.
    pub fn to_pargument_method_name(self) -> (r: &'static str)
        ensures
            self.formatting is Display ==> r@ == "to_pargument_display"@,
            self.formatting is Debug ==> r@ == "to_pargument_debug"@,
    {
        match self.formatting {
            Formatting::Display => "to_pargument_display",
            Formatting::Debug(_) => "to_pargument_debug",
        }
    }

    /// The name of the formatting method the style selects.
    pub fn fmt_method_name(self) -> (r: &'static str)
        ensures
            self.formatting is Display ==> r@ == "const_display_fmt"@,
            self.formatting is Debug ==> r@ == "const_debug_fmt"@,
    {
        match self.formatting {
            Formatting::Display => "const_display_fmt",
            Formatting::Debug(_) => "const_debug_fmt",
        }
    }

    /// The name of the length-computing method the style selects.
    pub fn len_method_name(self) -> (r: &'static str)
        ensures
            self.formatting is Display ==> r@ == "const_display_len"@,
            self.formatting is Debug ==> r@ == "const_debug_len"@,
    {
        match self.formatting {
            Formatting::Display => "const_display_len",
            Formatting::Debug(_) => "const_debug_len",
        }
    }

    /// The name of the prebuilt flags constant these flags select, over the
    /// alternate flag and the normalized numeric base.
    pub open spec fn spec_constant_name(self) -> Seq<char> {
        match self.is_alternate {
            IsAlternate::No => match self.spec_mode() {
                FormattingMode::Regular => "__REG"@,
                FormattingMode::Hexadecimal => "__HEX"@,
                FormattingMode::Binary => "__BIN"@,
            },
            IsAlternate::Yes => match self.spec_mode() {
                FormattingMode::Regular => "__A_REG"@,
                FormattingMode::Hexadecimal => "__A_HEX"@,
                FormattingMode::Binary => "__A_BIN"@,
            },
        }
    }

    /// The name of the prebuilt flags constant these flags select.
    pub fn flags_constant_name(self) -> (r: &'static str)
        ensures
            r@ == self.spec_constant_name(),
    {
        let mode = self.mode();
        match self.is_alternate {
            IsAlternate::No => match mode {
                FormattingMode::Regular => "__REG",
                FormattingMode::Hexadecimal => "__HEX",
                FormattingMode::Binary => "__BIN",
            },
            IsAlternate::Yes => match mode {
                FormattingMode::Regular => "__A_REG",
                FormattingMode::Hexadecimal => "__A_HEX",
                FormattingMode::Binary => "__A_BIN",
            },
        }
    }
}

} // verus!
