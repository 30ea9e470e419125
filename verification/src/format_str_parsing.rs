//! Format-string parser: turns a template string containing literal text and
//! `{..}` placeholders into an ordered sequence of literal and argument
//! components, validating escape sequences (`{{`, `}}`) and argument
//! specifiers.  Error positions are byte offsets into the original template.

use vstd::prelude::*;
use vstd::string::*;
use vstd::utf8::encode_utf8;

verus! {

/// A parsed template: its components in template order.
#[derive(Debug, PartialEq)]
pub struct FormatStr {
    pub list: Vec<FmtStrComponent>,
}

/// One component of a template: a literal run, or one argument reference.
#[derive(Debug, PartialEq)]
pub enum FmtStrComponent {
    Str(String),
    Arg(FmtArg),
}

/// An argument reference: which argument, and how it is rendered.
#[derive(Debug, PartialEq)]
pub struct FmtArg {
    pub which_arg: WhichArg,
    pub formatting: Formatting,
}

/// The selector of an argument: a named identifier, or a positional index
/// (`None` meaning the next implicit index).
#[derive(Debug, PartialEq)]
pub enum WhichArg {
    Ident(String),
    Positional(Option<usize>),
}

/// The formatting spec of an argument: `""` (display) or `"?"` (debug).
#[derive(Clone, Copy, Debug, PartialEq, Eq, Structural)]
pub enum Formatting {
    Debug,
    Display,
}

/// A fatal template-syntax error: its kind, and the byte offset into the
/// original template at which it was detected.
#[derive(Debug, PartialEq)]
pub struct ParseError {
    pub pos: usize,
    pub kind: ParseErrorKind,
}

/// The template-syntax error taxonomy.
#[derive(Debug, PartialEq)]
pub enum ParseErrorKind {
    /// A `{` with no matching `}`.
    UnclosedArg,
    /// A stray `}` in literal text, not doubled.
    InvalidClosedArg,
    /// A selector that starts with a digit but is not a valid index.
    NotANumber { what: String },
    /// A selector that is not a valid identifier.
    NotAnIdent { what: String },
    /// A formatting spec other than `""` or `"?"`.
    UnknownFormatting { what: String },
}

/// Mathematical form of a `WhichArg`.
pub enum WhichArgView {
    Ident(Seq<char>),
    Positional(Option<usize>),
}

/// Mathematical form of a `FmtArg`.
pub struct FmtArgView {
    pub which_arg: WhichArgView,
    pub formatting: Formatting,
}

/// Mathematical form of a `FmtStrComponent`.
pub enum ComponentView {
    Str(Seq<char>),
    Arg(FmtArgView),
}

/// Mathematical form of a `ParseErrorKind`.
pub enum ParseErrorKindView {
    UnclosedArg,
    InvalidClosedArg,
    NotANumber(Seq<char>),
    NotAnIdent(Seq<char>),
    UnknownFormatting(Seq<char>),
}

/// Mathematical form of a `ParseError`.
pub struct ParseErrorView {
    pub pos: int,
    pub kind: ParseErrorKindView,
}

impl View for WhichArg {
    type V = WhichArgView;

    open spec fn view(&self) -> WhichArgView {
        match self {
            WhichArg::Ident(s) => WhichArgView::Ident(s@),
            WhichArg::Positional(p) => WhichArgView::Positional(*p),
        }
    }
}

impl View for FmtArg {
    type V = FmtArgView;

    open spec fn view(&self) -> FmtArgView {
        FmtArgView { which_arg: self.which_arg@, formatting: self.formatting }
    }
}

impl View for FmtStrComponent {
    type V = ComponentView;

    open spec fn view(&self) -> ComponentView {
        match self {
            FmtStrComponent::Str(s) => ComponentView::Str(s@),
            FmtStrComponent::Arg(a) => ComponentView::Arg(a@),
        }
    }
}

/// The views of a component list.
pub open spec fn comp_views(l: Seq<FmtStrComponent>) -> Seq<ComponentView> {
    l.map_values(|c: FmtStrComponent| c@)
}

impl View for FormatStr {
    type V = Seq<ComponentView>;

    open spec fn view(&self) -> Seq<ComponentView> {
        comp_views(self.list@)
    }
}

impl View for ParseErrorKind {
    type V = ParseErrorKindView;

    open spec fn view(&self) -> ParseErrorKindView {
        match self {
            ParseErrorKind::UnclosedArg => ParseErrorKindView::UnclosedArg,
            ParseErrorKind::InvalidClosedArg => ParseErrorKindView::InvalidClosedArg,
            ParseErrorKind::NotANumber { what } => ParseErrorKindView::NotANumber(what@),
            ParseErrorKind::NotAnIdent { what } => ParseErrorKindView::NotAnIdent(what@),
            ParseErrorKind::UnknownFormatting { what } => ParseErrorKindView::UnknownFormatting(
                what@,
            ),
        }
    }
}

impl View for ParseError {
    type V = ParseErrorView;

    open spec fn view(&self) -> ParseErrorView {
        ParseErrorView { pos: self.pos as int, kind: self.kind@ }
    }
}

impl FmtStrComponent {
    /// A literal component holding the given text.
    pub fn str(s: &str) -> (r: Self)
        ensures
            r@ == ComponentView::Str(s@),
    {
        Self::Str(s.to_owned())
    }

    /// An argument component from its selector and formatting.
    pub fn arg(which_arg: WhichArg, formatting: Formatting) -> (r: Self)
        ensures
            r@ == ComponentView::Arg(FmtArgView { which_arg: which_arg@, formatting }),
    {
        Self::Arg(FmtArg { which_arg, formatting })
    }
}

impl FmtArg {
    /// An argument reference from its selector and formatting.
    pub fn new(which_arg: WhichArg, formatting: Formatting) -> (r: Self)
        ensures
            r@ == (FmtArgView { which_arg: which_arg@, formatting }),
    {
        Self { which_arg, formatting }
    }
}

impl WhichArg {
    /// A named selector holding the given identifier text.
    pub fn ident(s: &str) -> (r: Self)
        ensures
            r@ == WhichArgView::Ident(s@),
    {
        Self::Ident(s.to_owned())
    }
}

/// The byte offset of char index `i` of `t`: the UTF-8 length of the chars
/// before it.
pub open spec fn boff(t: Seq<char>, i: int) -> int {
    encode_utf8(t.take(i)).len() as int
}

/// The lowest index in `[from, to)` at which `t` holds the char `c`, or
/// `None` when there is none.
pub open spec fn find_char(t: Seq<char>, c: char, from: int, to: int) -> Option<int>
    decreases to - from,
{
    if from >= to {
        None
    } else if t[from] == c {
        Some(from)
    } else {
        find_char(t, c, from + 1, to)
    }
}

/// What a found char index means: in range, the char itself, and leftmost.
pub proof fn lemma_find_char_some(t: Seq<char>, c: char, from: int, to: int, i: int)
    requires
        find_char(t, c, from, to) == Some(i),
    ensures
        from <= i < to,
        t[i] == c,
        forall|j: int| from <= j < i ==> t[j] != c,
    decreases to - from,
{
    if from < to && t[from] != c {
        lemma_find_char_some(t, c, from + 1, to, i);
    }
}

/// A scan that saw no `c` in `[from, i)` leaves the search unchanged from
/// `i` on; at `i == to` the search is empty.
pub proof fn lemma_find_char_scan(t: Seq<char>, c: char, from: int, to: int, i: int)
    requires
        from <= i <= to,
        forall|j: int| from <= j < i ==> t[j] != c,
    ensures
        find_char(t, c, from, to) == find_char(t, c, i, to),
    decreases i - from,
{
    if from < i {
        lemma_find_char_scan(t, c, from + 1, to, i);
    }
}

/// Finds the lowest occurrence of `c` in the chars `[from, to)` of `s`.
pub fn find_char_from(s: &str, c: char, from: usize, to: usize) -> (r: Option<usize>)
    requires
        from <= to <= s@.len(),
    ensures
        match r {
            Some(i) => find_char(s@, c, from as int, to as int) == Some(i as int),
            None => find_char(s@, c, from as int, to as int) is None,
        },
{
    let mut i = from;
    while i < to
        invariant
            from <= i <= to <= s@.len(),
            forall|j: int| from <= j < i ==> s@[j] != c,
        decreases to - i,
    {
        if s.get_char(i) == c {
            proof {
                lemma_find_char_scan(s@, c, from as int, to as int, i as int);
            }
            return Some(i);
        }
        i += 1;
    }
    proof {
        lemma_find_char_scan(s@, c, from as int, to as int, to as int);
    }
    None
}

/// The byte offset of char index `i` of `s`.
pub fn byte_offset_of(s: &str, i: usize) -> (r: usize)
    requires
        i <= s@.len(),
    ensures
        r == boff(s@, i as int),
{
    let piece = s.substring_char(0, i);
    proof {
        assert(piece@ =~= s@.take(i as int));
    }
    piece.as_bytes().len()
}

/// Whether `c` has the Unicode `Alphabetic` property.
pub uninterp spec fn alphabetic(c: char) -> bool;

/// Whether `c` is alphanumeric: `Alphabetic`, or a numeric char.
pub uninterp spec fn alphanumeric(c: char) -> bool;

/// Relies on `char::is_alphabetic`: whether the char has the Unicode
/// `Alphabetic` property — a function of the char alone.
#[verifier::external_body]
fn char_is_alphabetic(c: char) -> (r: bool)
    ensures
        r == alphabetic(c),
{
    c.is_alphabetic()
}

/// Relies on `char::is_alphanumeric`: whether the char is alphabetic or
/// numeric — a function of the char alone.
#[verifier::external_body]
fn char_is_alphanumeric(c: char) -> (r: bool)
    ensures
        r == alphanumeric(c),
{
    c.is_alphanumeric()
}

/// An ASCII decimal digit.
pub open spec fn is_digit_char(c: char) -> bool {
    48 <= c as u32 <= 57
}

/// The numeric value of an ASCII decimal digit.
pub open spec fn digit_val(c: char) -> nat {
    (c as u32 - 48) as nat
}

/// Every char of `s` is an ASCII decimal digit.
pub open spec fn all_digits(s: Seq<char>) -> bool {
    forall|i: int| 0 <= i < s.len() ==> is_digit_char(s[i])
}

/// The base-10 value of a digit string.
pub open spec fn digits_val(s: Seq<char>) -> nat
    decreases s.len(),
{
    if s.len() == 0 {
        0
    } else {
        digits_val(s.drop_last()) * 10 + digit_val(s.last())
    }
}

/// A longer digit prefix never has a smaller value.
proof fn lemma_digits_val_mono(s: Seq<char>, i: int, j: int)
    requires
        0 <= i <= j <= s.len(),
    ensures
        digits_val(s.take(i)) <= digits_val(s.take(j)),
    decreases j - i,
{
    if i < j {
        lemma_digits_val_mono(s, i + 1, j);
        assert(s.take(i + 1).drop_last() =~= s.take(i));
        assert(digits_val(s.take(i + 1)) == digits_val(s.take(i)) * 10 + digit_val(s[i]));
        assert(digits_val(s.take(i)) * 10 >= digits_val(s.take(i))) by (nonlinear_arith);
    }
}

/// A valid identifier selector: a first char that is alphabetic — or an
/// underscore in an identifier of more than one char — and alphanumeric or
/// underscore chars after it.
pub open spec fn valid_ident(s: Seq<char>) -> bool {
    &&& s.len() > 0
    &&& (alphabetic(s[0]) || (s[0] == '_' && s.len() > 1))
    &&& (forall|i: int| 1 <= i < s.len() ==> alphanumeric(s[i]) || s[i] == '_')
}

/// What the selector part of an argument parses to: the next implicit
/// positional index when empty, an explicit positional index when it starts
/// with a digit, and a named identifier otherwise; or the error kind owed.
pub open spec fn which_spec(s: Seq<char>) -> Result<WhichArgView, ParseErrorKindView> {
    if s.len() == 0 {
        Ok(WhichArgView::Positional(None))
    } else if is_digit_char(s[0]) {
        if all_digits(s) && digits_val(s) <= usize::MAX {
            Ok(WhichArgView::Positional(Some(digits_val(s) as usize)))
        } else {
            Err(ParseErrorKindView::NotANumber(s))
        }
    } else {
        if valid_ident(s) {
            Ok(WhichArgView::Ident(s))
        } else {
            Err(ParseErrorKindView::NotAnIdent(s))
        }
    }
}

/// What the formatting part of an argument parses to: display for `""`,
/// debug for `"?"`, and the error kind owed for anything else.
pub open spec fn fmtg_spec(s: Seq<char>) -> Result<Formatting, ParseErrorKindView> {
    if s.len() == 0 {
        Ok(Formatting::Display)
    } else if s.len() == 1 && s[0] == '?' {
        Ok(Formatting::Debug)
    } else {
        Err(ParseErrorKindView::UnknownFormatting(s))
    }
}

/// Parses the `?` and other formatters inside a formatting argument.
/// `starts_at` is the byte offset of `input` in the template.
pub fn parse_formatting(input: &str, starts_at: usize) -> (r: Result<Formatting, ParseError>)
    ensures
        match r {
            Ok(f) => fmtg_spec(input@) == Ok::<Formatting, ParseErrorKindView>(f),
            Err(e) => fmtg_spec(input@) matches Err(kind) && e@ == (ParseErrorView {
                pos: starts_at as int,
                kind,
            }),
        },
{
    let n = input.unicode_len();
    if n == 0 {
        Ok(Formatting::Display)
    } else if n == 1 && input.get_char(0) == '?' {
        Ok(Formatting::Debug)
    } else {
        Err(
            ParseError {
                pos: starts_at,
                kind: ParseErrorKind::UnknownFormatting { what: input.to_owned() },
            },
        )
    }
}

/// Parses an identifier selector; the input must not be empty.
/// `starts_at` is the byte offset of `ident_str` in the template.
pub fn parse_ident(ident_str: &str, starts_at: usize) -> (r: Result<WhichArg, ParseError>)
    requires
        ident_str@.len() > 0,
    ensures
        match r {
            Ok(w) => valid_ident(ident_str@) && w@ == WhichArgView::Ident(ident_str@),
            Err(e) => !valid_ident(ident_str@) && e@ == (ParseErrorView {
                pos: starts_at as int,
                kind: ParseErrorKindView::NotAnIdent(ident_str@),
            }),
        },
{
    let n = ident_str.unicode_len();
    let first = ident_str.get_char(0);
    let first_ok = char_is_alphabetic(first) || (first == '_' && n > 1);
    if !first_ok {
        return Err(
            ParseError {
                pos: starts_at,
                kind: ParseErrorKind::NotAnIdent { what: ident_str.to_owned() },
            },
        );
    }
    let mut i: usize = 1;
    while i < n
        invariant
            n == ident_str@.len(),
            1 <= i <= n,
            forall|j: int| 1 <= j < i ==> alphanumeric(ident_str@[j]) || ident_str@[j] == '_',
        decreases n - i,
    {
        let c = ident_str.get_char(i);
        if !(char_is_alphanumeric(c) || c == '_') {
            return Err(
                ParseError {
                    pos: starts_at,
                    kind: ParseErrorKind::NotAnIdent { what: ident_str.to_owned() },
                },
            );
        }
        i += 1;
    }
    Ok(WhichArg::Ident(ident_str.to_owned()))
}

/// Parses the selector of an argument (`foo` in `{foo}`, `0` in `{0}`,
/// empty in `{}`).  `starts_at` is the byte offset of `input` in the
/// template.
pub fn parse_which_arg(input: &str, starts_at: usize) -> (r: Result<WhichArg, ParseError>)
    ensures
        match r {
            Ok(w) => which_spec(input@) == Ok::<WhichArgView, ParseErrorKindView>(w@),
            Err(e) => which_spec(input@) matches Err(kind) && e@ == (ParseErrorView {
                pos: starts_at as int,
                kind,
            }),
        },
{
    let n = input.unicode_len();
    if n == 0 {
        return Ok(WhichArg::Positional(None));
    }
    let first = input.get_char(0);
    let fv = first as u32;
    if 48 <= fv && fv <= 57 {
        let mut value: usize = 0;
        let mut i: usize = 0;
        while i < n
            invariant
                n == input@.len(),
                0 <= i <= n,
                n > 0,
                is_digit_char(input@[0]),
                all_digits(input@.take(i as int)),
                value == digits_val(input@.take(i as int)),
            decreases n - i,
        {
            let c = input.get_char(i);
            let v = c as u32;
            proof {
                assert(input@.take(i + 1).drop_last() =~= input@.take(i as int));
            }
            if v < 48 || v > 57 {
                assert(!all_digits(input@));
                return Err(
                    ParseError {
                        pos: starts_at,
                        kind: ParseErrorKind::NotANumber { what: input.to_owned() },
                    },
                );
            }
            let d = (v - 48) as usize;
            let grown = match value.checked_mul(10) {
                Some(x) => x.checked_add(d),
                None => None,
            };
            match grown {
                Some(y) => {
                    value = y;
                },
                None => {
                    proof {
                        lemma_digits_val_mono(input@, i + 1, n as int);
                        assert(input@.take(n as int) =~= input@);
                        assert(digits_val(input@) > usize::MAX);
                    }
                    return Err(
                        ParseError {
                            pos: starts_at,
                            kind: ParseErrorKind::NotANumber { what: input.to_owned() },
                        },
                    );
                },
            }
            i += 1;
        }
        proof {
            assert(input@.take(n as int) =~= input@);
        }
        Ok(WhichArg::Positional(Some(value)))
    } else {
        parse_ident(input, starts_at)
    }
}

/// UTF-8 encoding distributes over concatenation of char sequences.
proof fn lemma_encode_utf8_concat(a: Seq<char>, b: Seq<char>)
    ensures
        encode_utf8(a + b) == encode_utf8(a) + encode_utf8(b),
    decreases a.len(),
{
    if a.len() == 0 {
        assert(a + b =~= b);
        assert(encode_utf8(a) + encode_utf8(b) =~= encode_utf8(b));
    } else {
        lemma_encode_utf8_concat(a.drop_first(), b);
        assert((a + b).drop_first() =~= a.drop_first() + b);
        assert((a + b)[0] == a[0]);
        assert(encode_utf8(a) + encode_utf8(b) =~= vstd::utf8::encode_scalar(a[0] as u32)
            + encode_utf8(a.drop_first()) + encode_utf8(b));
        assert(encode_utf8(a + b) =~= vstd::utf8::encode_scalar(a[0] as u32) + (encode_utf8(
            a.drop_first(),
        ) + encode_utf8(b)));
    }
}

/// The byte offset of a later char index decomposes through an earlier one.
proof fn lemma_boff_split(t: Seq<char>, i: int, j: int)
    requires
        0 <= i <= j <= t.len(),
    ensures
        boff(t, j) == boff(t, i) + encode_utf8(t.subrange(i, j)).len(),
{
    assert(t.take(j) =~= t.take(i) + t.subrange(i, j));
    lemma_encode_utf8_concat(t.take(i), t.subrange(i, j));
}

/// Byte offsets never decrease along the text.
proof fn lemma_boff_mono(t: Seq<char>, i: int, j: int)
    requires
        0 <= i <= j <= t.len(),
    ensures
        boff(t, i) <= boff(t, j),
{
    lemma_boff_split(t, i, j);
}

/// What an argument between braces parses to: its selector before the first
/// `:` and its formatting spec after it, or the first error owed, placed at
/// a byte offset of the template (`starts_at` is the byte offset of `s`).
pub open spec fn arg_spec(s: Seq<char>, starts_at: int) -> Result<FmtArgView, ParseErrorView> {
    let n = s.len() as int;
    let colon = find_char(s, ':', 0, n);
    let wend = match colon {
        Some(cp) => cp,
        None => n,
    };
    match which_spec(s.take(wend)) {
        Err(kind) => Err(ParseErrorView { pos: starts_at, kind }),
        Ok(w) => {
            let fs = match colon {
                Some(cp) => s.subrange(cp + 1, n),
                None => Seq::empty(),
            };
            match fmtg_spec(fs) {
                Err(kind) => Err(
                    ParseErrorView {
                        pos: starts_at + boff(
                            s,
                            match colon {
                                Some(cp) => cp + 1,
                                None => n,
                            },
                        ),
                        kind,
                    },
                ),
                Ok(f) => Ok(FmtArgView { which_arg: w, formatting: f }),
            }
        },
    }
}

/// Parses one argument (`{:?}`, `{foo:}`, `{0}`, etc.) given the text
/// between its braces.  `starts_at` is the byte offset of `input` in the
/// template.
pub fn parse_fmt_arg(input: &str, starts_at: usize) -> (r: Result<FmtArg, ParseError>)
    requires
        starts_at + encode_utf8(input@).len() <= usize::MAX,
    ensures
        match r {
            Ok(a) => arg_spec(input@, starts_at as int) == Ok::<FmtArgView, ParseErrorView>(a@),
            Err(e) => arg_spec(input@, starts_at as int) == Err::<FmtArgView, ParseErrorView>(e@),
        },
{
    let n = input.unicode_len();
    let colon = find_char_from(input, ':', 0, n);
    let wend = match colon {
        Some(cp) => cp,
        None => n,
    };
    proof {
        if let Some(cp) = colon {
            lemma_find_char_some(input@, ':', 0, n as int, cp as int);
        }
    }
    let which_arg_str = input.substring_char(0, wend);
    proof {
        assert(which_arg_str@ =~= input@.take(wend as int));
    }
    let which_arg = match parse_which_arg(which_arg_str, starts_at) {
        Ok(w) => w,
        Err(e) => {
            return Err(e);
        },
    };
    let formatting = match colon {
        Some(cp) => {
            let fstr = input.substring_char(cp + 1, n);
            proof {
                lemma_boff_mono(input@, cp + 1, n as int);
                lemma_boff_split(input@, cp + 1, n as int);
                assert(input@.take(n as int) =~= input@);
            }
            let fsa = starts_at + byte_offset_of(input, cp + 1);
            match parse_formatting(fstr, fsa) {
                Ok(f) => f,
                Err(e) => {
                    return Err(e);
                },
            }
        },
        None => {
            let fstr = input.substring_char(n, n);
            proof {
                assert(fstr@ =~= Seq::<char>::empty());
            }
            match parse_formatting(fstr, input.as_bytes().len()) {
                Ok(f) => f,
                Err(e) => {
                    proof {
                        assert(false);
                    }
                    return Err(e);
                },
            }
        },
    };
    Ok(FmtArg { which_arg, formatting })
}

/// What the literal text between arguments unescapes to: each `}}` becomes
/// `}`, and a `}` not followed by another is the error owed, reported at
/// its char index within `s`.
pub open spec fn mid_spec(s: Seq<char>, pos: int) -> Result<Seq<char>, int>
    decreases s.len() - pos,
    when 0 <= pos <= s.len()
    via mid_spec_decreases
{
    match find_char(s, '}', pos, s.len() as int) {
        None => Ok(s.subrange(pos, s.len() as int)),
        Some(cp) => if cp + 1 < s.len() && s[cp + 1] == '}' {
            match mid_spec(s, cp + 2) {
                Ok(rest) => Ok(s.subrange(pos, cp + 1) + rest),
                Err(e) => Err(e),
            }
        } else {
            Err(cp)
        },
    }
}

#[via_fn]
proof fn mid_spec_decreases(s: Seq<char>, pos: int) {
    match find_char(s, '}', pos, s.len() as int) {
        Some(cp) => lemma_find_char_some(s, '}', pos, s.len() as int, cp),
        None => {},
    }
}

/// Parses the text between arguments, unescaping `}}` into `}`.
/// `starts_at` is the byte offset of `s` in the template.
pub fn parse_mid_str(s: &str, starts_at: usize) -> (r: Result<String, ParseError>)
    requires
        starts_at + encode_utf8(s@).len() <= usize::MAX,
    ensures
        match r {
            Ok(out) => mid_spec(s@, 0) == Ok::<Seq<char>, int>(out@),
            Err(e) => mid_spec(s@, 0) matches Err(cp) && e@ == (ParseErrorView {
                pos: starts_at + boff(s@, cp),
                kind: ParseErrorKindView::InvalidClosedArg,
            }),
        },
{
    let n = s.unicode_len();
    let mut buffer = String::new();
    let mut starts_pos: usize = 0;
    loop
        invariant
            n == s@.len(),
            0 <= starts_pos <= n,
            starts_at + encode_utf8(s@).len() <= usize::MAX,
            match mid_spec(s@, starts_pos as int) {
                Ok(rest) => mid_spec(s@, 0) == Ok::<Seq<char>, int>(buffer@ + rest),
                Err(cp) => mid_spec(s@, 0) == Err::<Seq<char>, int>(cp),
            },
        ensures
            0 <= starts_pos <= n,
            find_char(s@, '}', starts_pos as int, n as int) is None,
            match mid_spec(s@, starts_pos as int) {
                Ok(rest) => mid_spec(s@, 0) == Ok::<Seq<char>, int>(buffer@ + rest),
                Err(cp) => mid_spec(s@, 0) == Err::<Seq<char>, int>(cp),
            },
        decreases n - starts_pos,
    {
        match find_char_from(s, '}', starts_pos, n) {
            None => {
                break ;
            },
            Some(cp) => {
                proof {
                    lemma_find_char_some(s@, '}', starts_pos as int, n as int, cp as int);
                }
                if cp + 1 < n && s.get_char(cp + 1) == '}' {
                    let ghost buf0 = buffer@;
                    let piece = s.substring_char(starts_pos, cp + 1);
                    buffer.append(piece);
                    proof {
                        let sv = s@;
                        let sp = starts_pos as int;
                        if let Ok(rest) = mid_spec(sv, cp + 2) {
                            assert(mid_spec(sv, sp) == Ok::<Seq<char>, int>(
                                sv.subrange(sp, cp + 1) + rest,
                            ));
                            assert(buf0 + (sv.subrange(sp, cp + 1) + rest) =~= buffer@ + rest);
                        }
                    }
                    starts_pos = cp + 2;
                } else {
                    proof {
                        lemma_boff_mono(s@, cp as int, n as int);
                        assert(s@.take(n as int) =~= s@);
                    }
                    return Err(
                        ParseError {
                            pos: starts_at + byte_offset_of(s, cp),
                            kind: ParseErrorKind::InvalidClosedArg,
                        },
                    );
                }
            },
        }
    }
    let ghost buf0 = buffer@;
    let tail = s.substring_char(starts_pos, n);
    buffer.append(tail);
    proof {
        let sv = s@;
        let sp = starts_pos as int;
        assert(mid_spec(sv, sp) == Ok::<Seq<char>, int>(sv.subrange(sp, n as int)));
        assert(buf0 + sv.subrange(sp, n as int) =~= buffer@);
    }
    Ok(buffer)
}

/// A literal run appended to a component list: empty text changes nothing,
/// and adjacent literal runs coalesce into one component.
pub open spec fn push_lit_v(acc: Seq<ComponentView>, lit: Seq<char>) -> Seq<ComponentView> {
    if lit.len() == 0 {
        acc
    } else if acc.len() > 0 {
        match acc.last() {
            ComponentView::Str(x) => acc.drop_last().push(ComponentView::Str(x + lit)),
            _ => acc.push(ComponentView::Str(lit)),
        }
    } else {
        acc.push(ComponentView::Str(lit))
    }
}

/// Appends literal text to the component list, coalescing with a trailing
/// literal component.
fn push_literal(list: &mut Vec<FmtStrComponent>, s: &str)
    ensures
        comp_views(final(list)@) == push_lit_v(comp_views(old(list)@), s@),
{
    proof {
        assert(comp_views(old(list)@).len() == old(list)@.len());
    }
    if s.unicode_len() == 0 {
        return ;
    }
    let ghost l0 = list@;
    match list.pop() {
        None => {
            list.push(FmtStrComponent::Str(s.to_owned()));
            proof {
                assert(comp_views(list@) =~= push_lit_v(comp_views(l0), s@));
            }
        },
        Some(c) => {
            match c {
                FmtStrComponent::Str(x) => {
                    let mut x = x;
                    x.append(s);
                    list.push(FmtStrComponent::Str(x));
                    proof {
                        assert(comp_views(l0).last() == l0.last()@);
                        assert(comp_views(l0).drop_last() =~= comp_views(
                            l0.subrange(0, l0.len() - 1),
                        ));
                        assert(comp_views(list@) =~= push_lit_v(comp_views(l0), s@));
                    }
                },
                other => {
                    list.push(other);
                    list.push(FmtStrComponent::Str(s.to_owned()));
                    proof {
                        assert(comp_views(l0).last() == l0.last()@);
                        assert(list@.subrange(0, l0.len() as int) =~= l0);
                        assert(comp_views(list@) =~= push_lit_v(comp_views(l0), s@));
                    }
                },
            }
        },
    }
}

/// The parse of the template `t` from char position `pos`, with the
/// components already produced in `acc`: the state machine of the scan.
/// From the cursor, the text up to the next `{` is unescaped and appended
/// as a literal run; `{{` appends a literal `{`; otherwise the text up to
/// the matching `}` is parsed as one argument, and the scan resumes after
/// it.  All error positions are byte offsets into `t`.
pub open spec fn fmt_spec_acc(t: Seq<char>, pos: int, acc: Seq<ComponentView>) -> Result<
    Seq<ComponentView>,
    ParseErrorView,
>
    decreases t.len() - pos,
    when 0 <= pos <= t.len()
    via fmt_spec_acc_decreases
{
    let n = t.len() as int;
    let open = find_char(t, '{', pos, n);
    let hi = match open {
        Some(o) => o,
        None => n,
    };
    match mid_spec(t.subrange(pos, hi), 0) {
        Err(cp) => Err(
            ParseErrorView {
                pos: boff(t, pos) + boff(t.subrange(pos, hi), cp),
                kind: ParseErrorKindView::InvalidClosedArg,
            },
        ),
        Ok(piece) => {
            let acc1 = push_lit_v(acc, piece);
            match open {
                None => Ok(acc1),
                Some(o) => if o + 1 < n && t[o + 1] == '{' {
                    fmt_spec_acc(t, o + 2, push_lit_v(acc1, seq!['{']))
                } else {
                    match find_char(t, '}', o + 1, n) {
                        None => Err(
                            ParseErrorView {
                                pos: boff(t, o),
                                kind: ParseErrorKindView::UnclosedArg,
                            },
                        ),
                        Some(cl) => match arg_spec(t.subrange(o + 1, cl), boff(t, o + 1)) {
                            Err(e) => Err(e),
                            Ok(a) => fmt_spec_acc(t, cl + 1, acc1.push(ComponentView::Arg(a))),
                        },
                    }
                },
            }
        },
    }
}

#[via_fn]
proof fn fmt_spec_acc_decreases(t: Seq<char>, pos: int, acc: Seq<ComponentView>) {
    let n = t.len() as int;
    match find_char(t, '{', pos, n) {
        Some(o) => {
            lemma_find_char_some(t, '{', pos, n, o);
            match find_char(t, '}', o + 1, n) {
                Some(cl) => lemma_find_char_some(t, '}', o + 1, n, cl),
                None => {},
            }
        },
        None => {},
    }
}

/// The parse owed for a template: its component sequence — literal runs
/// maximal, in template order — or the first syntax error, at its byte
/// offset in the template.
pub open spec fn fmt_spec(t: Seq<char>) -> Result<Seq<ComponentView>, ParseErrorView> {
    fmt_spec_acc(t, 0, Seq::empty())
}

impl core::str::FromStr for FormatStr {
    type Err = ParseError;

    fn from_str(input: &str) -> Result<FormatStr, ParseError> {
        parse_format_str(input)
    }
}

/// Parses a whole template into its components, or reports the first
/// syntax error at its byte offset in the template.
pub fn parse_format_str(input: &str) -> (r: Result<FormatStr, ParseError>)
    ensures
        match r {
            Ok(fs) => fmt_spec(input@) == Ok::<Seq<ComponentView>, ParseErrorView>(fs@),
            Err(e) => fmt_spec(input@) == Err::<Seq<ComponentView>, ParseErrorView>(e@),
        },
{
    let n = input.unicode_len();
    let total_bytes = input.as_bytes().len();
    proof {
        assert(input@.take(n as int) =~= input@);
    }
    let mut components: Vec<FmtStrComponent> = Vec::new();
    let mut arg_start: usize = 0;
    proof {
        assert(comp_views(components@) =~= Seq::<ComponentView>::empty());
    }
    loop
        invariant
            n == input@.len(),
            total_bytes == encode_utf8(input@).len(),
            0 <= arg_start <= n,
            fmt_spec(input@) == fmt_spec_acc(
                input@,
                arg_start as int,
                comp_views(components@),
            ),
        decreases n - arg_start,
    {
        let ghost t = input@;
        let ghost acc = comp_views(components@);
        let ghost p0 = arg_start as int;
        let open = find_char_from(input, '{', arg_start, n);
        let hi = match open {
            Some(o) => o,
            None => n,
        };
        proof {
            assert(t.take(n as int) =~= t);
            if let Some(o) = open {
                lemma_find_char_some(t, '{', arg_start as int, n as int, o as int);
            }
            lemma_boff_mono(t, arg_start as int, n as int);
            lemma_boff_split(t, arg_start as int, hi as int);
            lemma_boff_mono(t, hi as int, n as int);
        }
        let mid = input.substring_char(arg_start, hi);
        proof {
            assert(mid@ =~= t.subrange(arg_start as int, hi as int));
        }
        let sa = byte_offset_of(input, arg_start);
        let piece = match parse_mid_str(mid, sa) {
            Ok(p) => p,
            Err(e) => {
                return Err(e);
            },
        };
        push_literal(&mut components, piece.as_str());
        match open {
            None => {
                return Ok(FormatStr { list: components });
            },
            Some(o) => {
                if o + 1 < n && input.get_char(o + 1) == '{' {
                    let ghost acc1 = comp_views(components@);
                    push_literal(&mut components, "{");
                    proof {
                        reveal_strlit("{");
                        assert("{"@ =~= seq!['{']);
                        assert(comp_views(components@) == push_lit_v(acc1, seq!['{']));
                        assert(acc1 == push_lit_v(acc, piece@));
                        assert(fmt_spec_acc(t, p0, acc) == fmt_spec_acc(
                            t,
                            o + 2,
                            comp_views(components@),
                        ));
                    }
                    arg_start = o + 2;
                } else {
                    match find_char_from(input, '}', o + 1, n) {
                        None => {
                            return Err(
                                ParseError {
                                    pos: byte_offset_of(input, o),
                                    kind: ParseErrorKind::UnclosedArg,
                                },
                            );
                        },
                        Some(cl) => {
                            proof {
                                lemma_find_char_some(t, '}', o + 1, n as int, cl as int);
                                lemma_boff_split(t, o + 1, cl as int);
                                lemma_boff_mono(t, cl as int, n as int);
                            }
                            let content = input.substring_char(o + 1, cl);
                            proof {
                                assert(content@ =~= t.subrange(o + 1, cl as int));
                            }
                            let casa = byte_offset_of(input, o + 1);
                            let arg = match parse_fmt_arg(content, casa) {
                                Ok(a) => a,
                                Err(e) => {
                                    return Err(e);
                                },
                            };
                            components.push(FmtStrComponent::Arg(arg));
                            proof {
                                assert(comp_views(components@) =~= comp_views(
                                    components@.subrange(0, components@.len() - 1),
                                ).push(ComponentView::Arg(arg@)));
                                assert(components@.subrange(0, components@.len() - 1)
                                    =~= components@.drop_last());
                                assert(comp_views(components@) == push_lit_v(acc, piece@).push(
                                    ComponentView::Arg(arg@),
                                ));
                                assert(fmt_spec_acc(t, p0, acc) == fmt_spec_acc(
                                    t,
                                    cl + 1,
                                    comp_views(components@),
                                ));
                            }
                            arg_start = cl + 1;
                        },
                    }
                }
            },
        }
    }
}

} // verus!
