//! The texts of the judges' error reports.
use vstd::prelude::*;
use crate::judge::{OutputError, ScoreIssue};
use crate::territory::{MoveError, LineError};

verus! {

/// The character of decimal digit `d`.
pub open spec fn digit_char(d: int) -> char {
    (48 + d) as char
}

/// The decimal digits of `v`, most significant first.
pub open spec fn decimal(v: nat) -> Seq<char>
    decreases v,
{
    if v < 10 {
        seq![digit_char(v as int)]
    } else {
        decimal(v / 10) + seq![digit_char((v % 10) as int)]
    }
}

/// What `String::from_utf8_lossy` makes of `b`: its UTF-8 text, each
/// invalid sequence replaced by U+FFFD.
pub uninterp spec fn utf8_lossy(b: Seq<u8>) -> Seq<char>;

/// `String::from_utf8_lossy`, as an owned string: the text of `b` read as
/// UTF-8 (`utf8_lossy`); bytes below 128 are the characters with their
/// codes.
#[verifier::external_body]
fn lossy_text(b: &[u8]) -> (s: String)
    ensures
        s@ == utf8_lossy(b@),
        (forall|i: int| 0 <= i < b@.len() ==> #[trigger] b@[i] < 128) ==> s@ == Seq::new(b@.len(), |i: int| b@[i] as char),
{
    String::from_utf8_lossy(b).into_owned()
}

/// The text of digit `d`.
fn digit_text(d: usize) -> (t: &'static str)
    requires
        d < 10,
    ensures
        t@ == seq![digit_char(d as int)],
{
    match d {
        0 => { proof { reveal_strlit("0"); } "0" },
        1 => { proof { reveal_strlit("1"); } "1" },
        2 => { proof { reveal_strlit("2"); } "2" },
        3 => { proof { reveal_strlit("3"); } "3" },
        4 => { proof { reveal_strlit("4"); } "4" },
        5 => { proof { reveal_strlit("5"); } "5" },
        6 => { proof { reveal_strlit("6"); } "6" },
        7 => { proof { reveal_strlit("7"); } "7" },
        8 => { proof { reveal_strlit("8"); } "8" },
        _ => { proof { reveal_strlit("9"); } "9" },
    }
}

/// Appends the decimal digits of `v` to `s`.
pub fn push_decimal(s: &mut String, v: usize)
    ensures
        final(s)@ == old(s)@ + decimal(v as nat),
    decreases v,
{
    if v >= 10 {
        push_decimal(s, v / 10);
    }
    let d = digit_text(v % 10);
    s.append(d);
    proof {
        if v >= 10 {
            assert(decimal(v as nat) == decimal((v / 10) as nat) + seq![digit_char((v % 10) as int)]);
        }
    }
}

/// The report of a reading error.
pub open spec fn output_error_text(e: OutputError) -> Seq<char> {
    match e {
        OutputError::UnexpectedEof => "Unexpected EOF"@,
        OutputError::ParseError(t) => "Parse error: "@ + utf8_lossy(t@),
        OutputError::OutOfRange(v) => "Out of range: "@ + decimal(v as nat),
        OutputError::TooManyOutputs => "Too many outputs"@,
    }
}

impl OutputError {
    /// The report of this error.
    pub fn message(&self) -> (m: String)
        ensures
            m@ == output_error_text(*self),
    {
        match self {
            OutputError::UnexpectedEof => String::from_str("Unexpected EOF"),
            OutputError::ParseError(t) => {
                let mut m = String::from_str("Parse error: ");
                let text = lossy_text(t.as_slice());
                m.append(text.as_str());
                m
            },
            OutputError::OutOfRange(v) => {
                let mut m = String::from_str("Out of range: ");
                push_decimal(&mut m, *v);
                m
            },
            OutputError::TooManyOutputs => String::from_str("Too many outputs"),
        }
    }
}

/// The report of a scoring issue.
pub open spec fn score_issue_text(e: ScoreIssue) -> Seq<char> {
    match e {
        ScoreIssue::DuplicateMove { turn, i, j } => "Duplicate move at turn "@ + decimal(turn as nat) + ": ("@
            + decimal(i as nat) + ", "@ + decimal(j as nat) + ")"@,
        ScoreIssue::InvalidMove { turn, pi, pj, i, j } => "Invalid move at turn "@ + decimal(turn as nat) + ": ("@
            + decimal(pi as nat) + ", "@ + decimal(pj as nat) + ") -> ("@ + decimal(i as nat) + ", "@
            + decimal(j as nat) + ")"@,
        ScoreIssue::NotFinished => "Not finished"@,
    }
}

impl ScoreIssue {
    /// The report of this issue.
    pub fn message(&self) -> (m: String)
        ensures
            m@ == score_issue_text(*self),
    {
        match self {
            ScoreIssue::DuplicateMove { turn, i, j } => {
                let mut m = String::from_str("Duplicate move at turn ");
                push_decimal(&mut m, *turn);
                m.append(": (");
                push_decimal(&mut m, *i);
                m.append(", ");
                push_decimal(&mut m, *j);
                m.append(")");
                m
            },
            ScoreIssue::InvalidMove { turn, pi, pj, i, j } => {
                let mut m = String::from_str("Invalid move at turn ");
                push_decimal(&mut m, *turn);
                m.append(": (");
                push_decimal(&mut m, *pi);
                m.append(", ");
                push_decimal(&mut m, *pj);
                m.append(") -> (");
                push_decimal(&mut m, *i);
                m.append(", ");
                push_decimal(&mut m, *j);
                m.append(")");
                m
            },
            ScoreIssue::NotFinished => String::from_str("Not finished"),
        }
    }
}

/// The report of a refused move.
pub open spec fn move_error_text(e: MoveError) -> Seq<char> {
    match e {
        MoveError::OutOfBounds { player, x, y } => "Player "@ + decimal(player as nat)
            + " attempted to move to out-of-bounds position ("@ + decimal(x as nat) + ", "@ + decimal(y as nat) + ")"@,
        MoveError::InvalidMove { player, from_x, from_y, x, y } => "Player "@ + decimal(player as nat)
            + " attempted invalid move from ("@ + decimal(from_x as nat) + ", "@ + decimal(from_y as nat) + ") to ("@
            + decimal(x as nat) + ", "@ + decimal(y as nat) + ")."@,
    }
}

impl MoveError {
    /// The report of this refusal.
    pub fn message(&self) -> (m: String)
        ensures
            m@ == move_error_text(*self),
    {
        match self {
            MoveError::OutOfBounds { player, x, y } => {
                let mut m = String::from_str("Player ");
                push_decimal(&mut m, *player);
                m.append(" attempted to move to out-of-bounds position (");
                push_decimal(&mut m, *x);
                m.append(", ");
                push_decimal(&mut m, *y);
                m.append(")");
                m
            },
            MoveError::InvalidMove { player, from_x, from_y, x, y } => {
                let mut m = String::from_str("Player ");
                push_decimal(&mut m, *player);
                m.append(" attempted invalid move from (");
                push_decimal(&mut m, *from_x);
                m.append(", ");
                push_decimal(&mut m, *from_y);
                m.append(") to (");
                push_decimal(&mut m, *x);
                m.append(", ");
                push_decimal(&mut m, *y);
                m.append(").");
                m
            },
        }
    }
}

/// The report of a line of moves that cannot be read.
pub open spec fn line_error_text(e: LineError) -> Seq<char> {
    match e {
        LineError::Read(r) => output_error_text(r),
        LineError::TooManyTokens(l) => "Too many tokens in line: "@ + utf8_lossy(l@),
    }
}

impl LineError {
    /// The report of this line.
    pub fn message(&self) -> (m: String)
        ensures
            m@ == line_error_text(*self),
    {
        match self {
            LineError::Read(e) => e.message(),
            LineError::TooManyTokens(l) => {
                let mut m = String::from_str("Too many tokens in line: ");
                let text = lossy_text(l.as_slice());
                m.append(text.as_str());
                m
            },
        }
    }
}

} // verus!
