//! A builder for terminal text: it accumulates a string interleaved with
//! the escape codes that select style, foreground and background, and
//! remembers the last selection so a newline or an inset span can restore
//! it.
use vstd::prelude::*;
use vstd::string::StringExecFns;

verus! {

#[derive(Eq, PartialEq, Copy, Clone, Structural)]
pub enum Fmt {
    Default,
    Bold,
    Underline,
    UnderlineStop,
}

#[derive(Eq, PartialEq, Copy, Clone, Structural)]
pub enum Col {
    Black,
    Red,
    Green,
    Yellow,
    Blue,
    Purple,
    DarkCyan,
    Grey,
    DarkGrey,
    BrightRed,
    Lime,
    BrightYellow,
    BrightBlue,
    Magenta,
    Cyan,
    White,
}

/// The escape code a style selection appends.
pub open spec fn fmt_code(f: Fmt) -> Seq<char> {
    match f {
        Fmt::Default => "\u{1b}[0m"@,
        Fmt::Bold => "\u{1b}[1m"@,
        Fmt::Underline => "\u{1b}[4m"@,
        Fmt::UnderlineStop => "\u{1b}[24m"@,
    }
}

/// The escape code a foreground selection appends.
pub open spec fn col_code(c: Col) -> Seq<char> {
    match c {
        Col::Black => "\u{1b}[30m"@,
        Col::Red => "\u{1b}[31m"@,
        Col::Green => "\u{1b}[32m"@,
        Col::Yellow => "\u{1b}[33m"@,
        Col::Blue => "\u{1b}[34m"@,
        Col::Purple => "\u{1b}[35m"@,
        Col::DarkCyan => "\u{1b}[36m"@,
        Col::Grey => "\u{1b}[37m"@,
        Col::DarkGrey => "\u{1b}[90m"@,
        Col::BrightRed => "\u{1b}[91m"@,
        Col::Lime => "\u{1b}[92m"@,
        Col::BrightYellow => "\u{1b}[93m"@,
        Col::BrightBlue => "\u{1b}[94m"@,
        Col::Magenta => "\u{1b}[95m"@,
        Col::Cyan => "\u{1b}[96m"@,
        Col::White => "\u{1b}[97m"@,
    }
}

/// The escape code a background selection appends.
pub open spec fn bg_code(c: Col) -> Seq<char> {
    match c {
        Col::Black => "\u{1b}[40m"@,
        Col::Red => "\u{1b}[41m"@,
        Col::Green => "\u{1b}[42m"@,
        Col::Yellow => "\u{1b}[43m"@,
        Col::Blue => "\u{1b}[44m"@,
        Col::Purple => "\u{1b}[45m"@,
        Col::DarkCyan => "\u{1b}[46m"@,
        Col::Grey => "\u{1b}[47m"@,
        Col::DarkGrey => "\u{1b}[100m"@,
        Col::BrightRed => "\u{1b}[101m"@,
        Col::Lime => "\u{1b}[102m"@,
        Col::BrightYellow => "\u{1b}[103m"@,
        Col::BrightBlue => "\u{1b}[104m"@,
        Col::Magenta => "\u{1b}[105m"@,
        Col::Cyan => "\u{1b}[106m"@,
        Col::White => "\u{1b}[107m"@,
    }
}

pub struct Printer {
    pub s: String,
    pub last_col: Col,
    pub last_bg: Col,
    pub last_fmt: Fmt,
}

impl Printer {
    /// A fresh printer: no output yet, white on black, default style.
    pub fn start() -> (r: Printer)
        ensures
            r.s@ == Seq::<char>::empty(),
            r.last_col == Col::White,
            r.last_bg == Col::Black,
            r.last_fmt == Fmt::Default,
    {
        Printer { s: String::new(), last_col: Col::White, last_bg: Col::Black, last_fmt: Fmt::Default }
    }

    /// Appends plain text.
    pub fn text(self, text: &str) -> (r: Printer)
        ensures
            r.s@ == self.s@ + text@,
            r.last_col == self.last_col,
            r.last_bg == self.last_bg,
            r.last_fmt == self.last_fmt,
    {
        let mut s = self.s;
        s.append(text);
        Printer { s, last_col: self.last_col, last_bg: self.last_bg, last_fmt: self.last_fmt }
    }

    /// Selects a style.
    pub fn fmt(self, fmt: Fmt) -> (r: Printer)
        ensures
            r.s@ == self.s@ + fmt_code(fmt),
            r.last_col == self.last_col,
            r.last_bg == self.last_bg,
            r.last_fmt == fmt,
    {
        let mut s = self.s;
        match fmt {
            Fmt::Default => s.append("\u{1b}[0m"),
            Fmt::Bold => s.append("\u{1b}[1m"),
            Fmt::Underline => s.append("\u{1b}[4m"),
            Fmt::UnderlineStop => s.append("\u{1b}[24m"),
        }
        Printer { s, last_col: self.last_col, last_bg: self.last_bg, last_fmt: fmt }
    }

    /// Back to the default style.
    pub fn def(self) -> (r: Printer)
        ensures
            r.s@ == self.s@ + fmt_code(Fmt::Default),
            r.last_col == self.last_col,
            r.last_bg == self.last_bg,
            r.last_fmt == Fmt::Default,
    {
        self.fmt(Fmt::Default)
    }

    /// Selects a foreground colour.
    pub fn col(self, col: Col) -> (r: Printer)
        ensures
            r.s@ == self.s@ + col_code(col),
            r.last_col == col,
            r.last_bg == self.last_bg,
            r.last_fmt == self.last_fmt,
    {
        let mut s = self.s;
        match col {
            Col::Black => s.append("\u{1b}[30m"),
            Col::Red => s.append("\u{1b}[31m"),
            Col::Green => s.append("\u{1b}[32m"),
            Col::Yellow => s.append("\u{1b}[33m"),
            Col::Blue => s.append("\u{1b}[34m"),
            Col::Purple => s.append("\u{1b}[35m"),
            Col::DarkCyan => s.append("\u{1b}[36m"),
            Col::Grey => s.append("\u{1b}[37m"),
            Col::DarkGrey => s.append("\u{1b}[90m"),
            Col::BrightRed => s.append("\u{1b}[91m"),
            Col::Lime => s.append("\u{1b}[92m"),
            Col::BrightYellow => s.append("\u{1b}[93m"),
            Col::BrightBlue => s.append("\u{1b}[94m"),
            Col::Magenta => s.append("\u{1b}[95m"),
            Col::Cyan => s.append("\u{1b}[96m"),
            Col::White => s.append("\u{1b}[97m"),
        }
        Printer { s, last_col: col, last_bg: self.last_bg, last_fmt: self.last_fmt }
    }

    /// Selects a background colour.
    pub fn bg(self, col: Col) -> (r: Printer)
        ensures
            r.s@ == self.s@ + bg_code(col),
            r.last_col == self.last_col,
            r.last_bg == col,
            r.last_fmt == self.last_fmt,
    {
        let mut s = self.s;
        match col {
            Col::Black => s.append("\u{1b}[40m"),
            Col::Red => s.append("\u{1b}[41m"),
            Col::Green => s.append("\u{1b}[42m"),
            Col::Yellow => s.append("\u{1b}[43m"),
            Col::Blue => s.append("\u{1b}[44m"),
            Col::Purple => s.append("\u{1b}[45m"),
            Col::DarkCyan => s.append("\u{1b}[46m"),
            Col::Grey => s.append("\u{1b}[47m"),
            Col::DarkGrey => s.append("\u{1b}[100m"),
            Col::BrightRed => s.append("\u{1b}[101m"),
            Col::Lime => s.append("\u{1b}[102m"),
            Col::BrightYellow => s.append("\u{1b}[103m"),
            Col::BrightBlue => s.append("\u{1b}[104m"),
            Col::Magenta => s.append("\u{1b}[105m"),
            Col::Cyan => s.append("\u{1b}[106m"),
            Col::White => s.append("\u{1b}[107m"),
        }
        Printer { s, last_col: self.last_col, last_bg: col, last_fmt: self.last_fmt }
    }

    /// Ends the line: resets the style for the break, then restores the
    /// remembered colours and style.
    pub fn ln(self) -> (r: Printer)
        ensures
            r.s@ == self.s@ + fmt_code(Fmt::Default) + "\n"@ + col_code(self.last_col) + bg_code(
                self.last_bg,
            ) + fmt_code(self.last_fmt),
            r.last_col == self.last_col,
            r.last_bg == self.last_bg,
            r.last_fmt == self.last_fmt,
    {
        let f = self.last_fmt;
        let c = self.last_col;
        let b = self.last_bg;
        let mut s = self.s;
        s.append("\u{1b}[0m");
        s.append("\n");
        let p = Printer { s, last_col: c, last_bg: b, last_fmt: f };
        p.col(c).bg(b).fmt(f)
    }

    /// Appends text, then ends the line.
    pub fn text_ln(self, text: &str) -> (r: Printer)
        ensures
            r.s@ == self.s@ + text@ + fmt_code(Fmt::Default) + "\n"@ + col_code(self.last_col)
                + bg_code(self.last_bg) + fmt_code(self.last_fmt),
            r.last_col == self.last_col,
            r.last_bg == self.last_bg,
            r.last_fmt == self.last_fmt,
    {
        self.text(text).ln()
    }

    /// Restores an earlier selection of style and colours.
    pub fn revert_styles(self, fmt: Fmt, col: Col, bg: Col) -> (r: Printer)
        ensures
            r.s@ == self.s@ + col_code(col) + bg_code(bg) + fmt_code(fmt),
            r.last_col == col,
            r.last_bg == bg,
            r.last_fmt == fmt,
    {
        self.col(col).bg(bg).fmt(fmt)
    }

    /// Writes one span in the given style, then restores the previous one.
    pub fn fmt_for(self, fmt: Fmt, text: &str) -> (r: Printer)
        ensures
            r.s@ == self.s@ + fmt_code(fmt) + text@ + col_code(self.last_col) + bg_code(
                self.last_bg,
            ) + fmt_code(self.last_fmt),
            r.last_col == self.last_col,
            r.last_bg == self.last_bg,
            r.last_fmt == self.last_fmt,
    {
        let f = self.last_fmt;
        let c = self.last_col;
        let b = self.last_bg;
        self.fmt(fmt).text(text).revert_styles(f, c, b)
    }

    /// One styled span, then a line break.
    pub fn fmt_for_ln(self, fmt: Fmt, text: &str) -> (r: Printer)
        ensures
            r.last_col == self.last_col,
            r.last_bg == self.last_bg,
            r.last_fmt == self.last_fmt,
    {
        self.fmt_for(fmt, text).ln()
    }

    /// Writes one span in the given colour, then restores the previous one.
    pub fn col_for(self, col: Col, text: &str) -> (r: Printer)
        ensures
            r.s@ == self.s@ + col_code(col) + text@ + col_code(self.last_col) + bg_code(
                self.last_bg,
            ) + fmt_code(self.last_fmt),
            r.last_col == self.last_col,
            r.last_bg == self.last_bg,
            r.last_fmt == self.last_fmt,
    {
        let f = self.last_fmt;
        let c = self.last_col;
        let b = self.last_bg;
        self.col(col).text(text).revert_styles(f, c, b)
    }

    /// One coloured span, then a line break.
    pub fn col_for_ln(self, col: Col, text: &str) -> (r: Printer)
        ensures
            r.last_col == self.last_col,
            r.last_bg == self.last_bg,
            r.last_fmt == self.last_fmt,
    {
        self.col_for(col, text).ln()
    }

    /// Writes one span on the given background, then restores the previous
    /// one.
    pub fn bg_for(self, col: Col, text: &str) -> (r: Printer)
        ensures
            r.s@ == self.s@ + bg_code(col) + text@ + col_code(self.last_col) + bg_code(
                self.last_bg,
            ) + fmt_code(self.last_fmt),
            r.last_col == self.last_col,
            r.last_bg == self.last_bg,
            r.last_fmt == self.last_fmt,
    {
        let f = self.last_fmt;
        let c = self.last_col;
        let b = self.last_bg;
        self.bg(col).text(text).revert_styles(f, c, b)
    }

    /// One backgrounded span, then a line break.
    pub fn bg_for_ln(self, col: Col, text: &str) -> (r: Printer)
        ensures
            r.last_col == self.last_col,
            r.last_bg == self.last_bg,
            r.last_fmt == self.last_fmt,
    {
        self.bg_for(col, text).ln()
    }

    /// One span with style, colour and background all set, then restored.
    pub fn all_for(self, fmt: Fmt, col: Col, bg: Col, text: &str) -> (r: Printer)
        ensures
            r.s@ == self.s@ + col_code(col) + bg_code(bg) + fmt_code(fmt) + text@ + col_code(
                self.last_col,
            ) + bg_code(self.last_bg) + fmt_code(self.last_fmt),
            r.last_col == self.last_col,
            r.last_bg == self.last_bg,
            r.last_fmt == self.last_fmt,
    {
        let f = self.last_fmt;
        let c = self.last_col;
        let b = self.last_bg;
        self.col(col).bg(bg).fmt(fmt).text(text).revert_styles(f, c, b)
    }

    /// One fully-styled span, then a line break.
    pub fn all_for_ln(self, fmt: Fmt, col: Col, bg: Col, text: &str) -> (r: Printer)
        ensures
            r.last_col == self.last_col,
            r.last_bg == self.last_bg,
            r.last_fmt == self.last_fmt,
    {
        self.all_for(fmt, col, bg, text).ln()
    }

    /// Everything accumulated so far, with a final style reset, ready to be
    /// handed to whatever writes it out.
    pub fn finish(self) -> (r: String)
        ensures
            r@ == self.s@ + fmt_code(Fmt::Default),
    {
        self.def().s
    }
}

} // verus!
