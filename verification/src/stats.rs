//! Parsing of raw CPU counter text into a structured snapshot.
//!
//! The counter text is a sequence of lines. Every line whose first
//! whitespace-delimited token starts with `cpu` must carry at least seven
//! integer fields (user, nice, system, idle, iowait, irq, softirq, in that
//! order); trailing fields are ignored. Other lines are skipped. The first
//! failing field of the first failing line decides the error; with no `cpu`
//! line at all the parse reports that no CPU stats are available.

use vstd::prelude::*;
use vstd::string::StrSliceExecFns;
use vstd::string::StringExecFns;

verus! {

// ---------------------------------------------------------------------------
// Character classes
// ---------------------------------------------------------------------------

/// The Unicode whitespace characters, the separators of tokens within a line.
pub open spec fn is_space_char(c: char) -> bool {
    c == ' ' || c == '\t' || c == '\n' || c == '\r' || c == '\u{b}' || c == '\u{c}'
        || c == '\u{85}' || c == '\u{a0}' || c == '\u{1680}' || c == '\u{2000}'
        || c == '\u{2001}' || c == '\u{2002}' || c == '\u{2003}' || c == '\u{2004}'
        || c == '\u{2005}' || c == '\u{2006}' || c == '\u{2007}' || c == '\u{2008}'
        || c == '\u{2009}' || c == '\u{200a}' || c == '\u{2028}' || c == '\u{2029}'
        || c == '\u{202f}' || c == '\u{205f}' || c == '\u{3000}'
}

fn is_space(c: char) -> (b: bool)
    ensures
        b == is_space_char(c),
{
    c == ' ' || c == '\t' || c == '\n' || c == '\r' || c == '\u{b}' || c == '\u{c}'
        || c == '\u{85}' || c == '\u{a0}' || c == '\u{1680}' || c == '\u{2000}'
        || c == '\u{2001}' || c == '\u{2002}' || c == '\u{2003}' || c == '\u{2004}'
        || c == '\u{2005}' || c == '\u{2006}' || c == '\u{2007}' || c == '\u{2008}'
        || c == '\u{2009}' || c == '\u{200a}' || c == '\u{2028}' || c == '\u{2029}'
        || c == '\u{202f}' || c == '\u{205f}' || c == '\u{3000}'
}

pub open spec fn is_digit_char(c: char) -> bool {
    48 <= c as u32 <= 57
}

// ---------------------------------------------------------------------------
// Lines and tokens
// ---------------------------------------------------------------------------

/// Folds the characters of a prefix of the text into the lines already ended
/// by a newline and the still open rest.
pub open spec fn lines_fold(s: Seq<char>) -> (Seq<Seq<char>>, Seq<char>)
    decreases s.len(),
{
    if s.len() == 0 {
        (Seq::empty(), Seq::empty())
    } else {
        let p = lines_fold(s.drop_last());
        if s.last() == '\n' {
            (p.0.push(p.1), Seq::empty())
        } else {
            (p.0, p.1.push(s.last()))
        }
    }
}

/// The lines of the text: split at `'\n'`, with a final line without a
/// terminator included and a final empty rest dropped.
pub open spec fn spec_lines(s: Seq<char>) -> Seq<Seq<char>> {
    let p = lines_fold(s);
    if p.1.len() == 0 {
        p.0
    } else {
        p.0.push(p.1)
    }
}

/// Folds the characters of a prefix of a line into the tokens already ended
/// by whitespace and the still open rest.
pub open spec fn tokens_fold(s: Seq<char>) -> (Seq<Seq<char>>, Seq<char>)
    decreases s.len(),
{
    if s.len() == 0 {
        (Seq::empty(), Seq::empty())
    } else {
        let p = tokens_fold(s.drop_last());
        if is_space_char(s.last()) {
            if p.1.len() == 0 {
                p
            } else {
                (p.0.push(p.1), Seq::empty())
            }
        } else {
            (p.0, p.1.push(s.last()))
        }
    }
}

/// The whitespace-delimited tokens of a line, each nonempty, in line order.
pub open spec fn spec_tokens(s: Seq<char>) -> Seq<Seq<char>> {
    let p = tokens_fold(s);
    if p.1.len() == 0 {
        p.0
    } else {
        p.0.push(p.1)
    }
}

// ---------------------------------------------------------------------------
// Integer tokens
// ---------------------------------------------------------------------------

/// The value of a sequence of decimal digits, most significant first.
pub open spec fn digits_val(s: Seq<char>) -> int
    decreases s.len(),
{
    if s.len() == 0 {
        0
    } else {
        digits_val(s.drop_last()) * 10 + (s.last() as u32 - 48)
    }
}

/// The digits of a token: an optional leading `'+'` is not one of them.
pub open spec fn token_digits(s: Seq<char>) -> Seq<char> {
    if s.len() > 0 && s[0] == '+' {
        s.skip(1)
    } else {
        s
    }
}

/// Whether the token is a non-negative decimal integer that fits in 32 bits:
/// an optional `'+'` sign, then one or more digits, with a value at most
/// `u32::MAX`.
pub open spec fn is_u32_token(s: Seq<char>) -> bool {
    &&& token_digits(s).len() > 0
    &&& forall|i: int| 0 <= i < token_digits(s).len() ==> is_digit_char(#[trigger] token_digits(s)[i])
    &&& digits_val(token_digits(s)) <= u32::MAX
}

/// The value of a valid integer token.
pub open spec fn u32_token_val(s: Seq<char>) -> int {
    digits_val(token_digits(s))
}

// ---------------------------------------------------------------------------
// Errors and data
// ---------------------------------------------------------------------------

/// Why a parse failed, at the level of contracts: a field ran out before
/// seven were consumed, a field was present but no 32-bit integer (carrying
/// that token verbatim), or no `cpu` line was found at all.
pub enum ParseErrorView {
    MissingValue,
    InvalidInteger(Seq<char>),
    NoData,
}

/// Why a parse failed: a field ran out before seven were consumed, a field
/// was present but no 32-bit integer (carrying that token verbatim), or no
/// `cpu` line was found at all.
#[derive(Debug, PartialEq)]
pub enum ParseError {
    MissingValue,
    InvalidInteger(String),
    NoData,
}

impl View for ParseError {
    type V = ParseErrorView;

    open spec fn view(&self) -> ParseErrorView {
        match self {
            ParseError::MissingValue => ParseErrorView::MissingValue,
            ParseError::InvalidInteger(t) => ParseErrorView::InvalidInteger(t@),
            ParseError::NoData => ParseErrorView::NoData,
        }
    }
}

impl ParseError {
    /// The user-visible description of the error.
    pub open spec fn spec_message(self) -> Seq<char> {
        match self {
            ParseError::MissingValue => "No value to convert"@,
            ParseError::InvalidInteger(t) => "Cannot convert '"@ + t@ + "' to integer"@,
            ParseError::NoData => "No CPU stats available"@,
        }
    }

    /// Renders the error as its user-visible description.
    pub fn message(&self) -> (m: String)
        ensures
            m@ == self.spec_message(),
    {
        match self {
            ParseError::MissingValue => String::from_str("No value to convert"),
            ParseError::InvalidInteger(t) => {
                let mut m = String::from_str("Cannot convert '");
                m.append(t.as_str());
                m.append("' to integer");
                m
            },
            ParseError::NoData => String::from_str("No CPU stats available"),
        }
    }
}

/// One row of counters, at the level of contracts.
#[verifier::ext_equal]
pub struct CpuView {
    pub name: Seq<char>,
    pub user: u32,
    pub nice: u32,
    pub system: u32,
    pub idle: u32,
    pub iowait: u32,
    pub irq: u32,
    pub softirq: u32,
}

/// One row of counters: the name of the row (the aggregate `cpu` or one core
/// `cpuN`) and its first seven fields, in source order.
#[derive(Debug, PartialEq, PartialOrd)]
pub struct Cpu {
    pub name: String,
    pub user: u32,
    pub nice: u32,
    pub system: u32,
    pub idle: u32,
    pub iowait: u32,
    pub irq: u32,
    pub softirq: u32,
}

impl View for Cpu {
    type V = CpuView;

    open spec fn view(&self) -> CpuView {
        CpuView {
            name: self.name@,
            user: self.user,
            nice: self.nice,
            system: self.system,
            idle: self.idle,
            iowait: self.iowait,
            irq: self.irq,
            softirq: self.softirq,
        }
    }
}

/// One parsed snapshot: the rows of counters in the order of the source text.
#[derive(Debug, PartialEq, PartialOrd)]
pub struct Stats {
    pub cpus: Vec<Cpu>,
}

impl View for Stats {
    type V = Seq<CpuView>;

    open spec fn view(&self) -> Seq<CpuView> {
        self.cpus@.map_values(|c: Cpu| c@)
    }
}

// ---------------------------------------------------------------------------
// The parse, as a mathematical function
// ---------------------------------------------------------------------------

/// The conversion of one field: absent means a missing value, present but no
/// 32-bit integer names the token, otherwise its value.
pub open spec fn spec_convert(val: Option<Seq<char>>) -> Result<u32, ParseErrorView> {
    match val {
        Option::None => Result::Err(ParseErrorView::MissingValue),
        Option::Some(s) => if is_u32_token(s) {
            Result::Ok(u32_token_val(s) as u32)
        } else {
            Result::Err(ParseErrorView::InvalidInteger(s))
        },
    }
}

/// Walks the first seven fields in order and reports the first failure,
/// if any.
pub open spec fn spec_check_fields(fields: Seq<Seq<char>>, j: int) -> Option<ParseErrorView>
    decreases 7 - j,
{
    if j < 0 || j >= 7 {
        Option::None
    } else if fields.len() <= j {
        Option::Some(ParseErrorView::MissingValue)
    } else if !is_u32_token(fields[j]) {
        Option::Some(ParseErrorView::InvalidInteger(fields[j]))
    } else {
        spec_check_fields(fields, j + 1)
    }
}

/// One row parsed from its name and the fields that follow it.
pub open spec fn spec_cpu_parse(name: Seq<char>, fields: Seq<Seq<char>>) -> Result<
    CpuView,
    ParseErrorView,
> {
    match spec_check_fields(fields, 0) {
        Option::Some(e) => Result::Err(e),
        Option::None => Result::Ok(
            CpuView {
                name: name,
                user: u32_token_val(fields[0]) as u32,
                nice: u32_token_val(fields[1]) as u32,
                system: u32_token_val(fields[2]) as u32,
                idle: u32_token_val(fields[3]) as u32,
                iowait: u32_token_val(fields[4]) as u32,
                irq: u32_token_val(fields[5]) as u32,
                softirq: u32_token_val(fields[6]) as u32,
            },
        ),
    }
}

/// Whether a token starts with the literal prefix `cpu`.
pub open spec fn starts_cpu(t: Seq<char>) -> bool {
    t.len() >= 3 && t[0] == 'c' && t[1] == 'p' && t[2] == 'u'
}

/// Whether a line is selected by the parse: its first token starts
/// with `cpu`.
pub open spec fn line_is_cpu(line: Seq<char>) -> bool {
    spec_tokens(line).len() > 0 && starts_cpu(spec_tokens(line)[0])
}

/// What one line contributes: nothing, one row, or the first failure of its
/// fields.
pub enum LineResult {
    Skipped,
    Row(CpuView),
    Failed(ParseErrorView),
}

/// The contribution of one line to the parse.
pub open spec fn spec_line_result(line: Seq<char>) -> LineResult {
    let toks = spec_tokens(line);
    if !line_is_cpu(line) {
        LineResult::Skipped
    } else {
        match spec_cpu_parse(toks[0], toks.skip(1)) {
            Result::Ok(c) => LineResult::Row(c),
            Result::Err(e) => LineResult::Failed(e),
        }
    }
}

/// The rows collected from the lines in order, stopped by the first failing
/// line.
pub open spec fn spec_parse_lines(ls: Seq<Seq<char>>) -> Result<Seq<CpuView>, ParseErrorView>
    decreases ls.len(),
{
    if ls.len() == 0 {
        Result::Ok(Seq::empty())
    } else {
        match spec_line_result(ls[0]) {
            LineResult::Skipped => spec_parse_lines(ls.skip(1)),
            LineResult::Failed(e) => Result::Err(e),
            LineResult::Row(c) => match spec_parse_lines(ls.skip(1)) {
                Result::Ok(rest) => Result::Ok(seq![c] + rest),
                Result::Err(e) => Result::Err(e),
            },
        }
    }
}

/// The whole parse: the rows of every `cpu` line in line order; the error of
/// the first failing line; with no `cpu` line at all, no data.
pub open spec fn spec_parse(s: Seq<char>) -> Result<Seq<CpuView>, ParseErrorView> {
    match spec_parse_lines(spec_lines(s)) {
        Result::Err(e) => Result::Err(e),
        Result::Ok(cs) => if cs.len() == 0 {
            Result::Err(ParseErrorView::NoData)
        } else {
            Result::Ok(cs)
        },
    }
}

/// Whether an executable result agrees, view by view, with a result of the
/// mathematical parse.
pub open spec fn parse_agrees(
    r: Result<Stats, ParseError>,
    s: Result<Seq<CpuView>, ParseErrorView>,
) -> bool {
    match (r, s) {
        (Result::Ok(stats), Result::Ok(cs)) => stats@ == cs,
        (Result::Err(e), Result::Err(f)) => e@ == f,
        _ => false,
    }
}

// ---------------------------------------------------------------------------
// Views of borrowed string sequences
// ---------------------------------------------------------------------------

/// The character sequences of a sequence of borrowed strings.
pub open spec fn views_of(s: Seq<&str>) -> Seq<Seq<char>> {
    s.map_values(|t: &str| t@)
}

/// The views of a sequence of parsed rows.
pub open spec fn cpu_views(s: Seq<Cpu>) -> Seq<CpuView> {
    s.map_values(|c: Cpu| c@)
}

// ---------------------------------------------------------------------------
// Executable splitting into lines and tokens
// ---------------------------------------------------------------------------

/// Splits the text into its lines.
#[verifier::loop_isolation(false)]
fn split_lines<'a>(text: &'a str) -> (lines: Vec<&'a str>)
    ensures
        views_of(lines@) == spec_lines(text@),
{
    let n = text.unicode_len();
    let mut lines: Vec<&'a str> = Vec::new();
    let mut start: usize = 0;
    let mut i: usize = 0;
    while i < n
        invariant
            start <= i <= n,
            views_of(lines@) == lines_fold(text@.subrange(0, i as int)).0,
            lines_fold(text@.subrange(0, i as int)).1 == text@.subrange(
                start as int,
                i as int,
            ),
        decreases n - i,
    {
        let c = text.get_char(i);
        proof {
            let pre = text@.subrange(0, i as int);
            let ext = text@.subrange(0, i + 1);
            assert(ext.drop_last() == pre);
            assert(ext.last() == c);
        }
        if c == '\n' {
            let line = text.substring_char(start, i);
            let ghost prev = lines@;
            lines.push(line);
            proof {
                assert(views_of(prev.push(line)) =~= views_of(prev).push(line@));
                assert(Seq::<char>::empty() =~= text@.subrange(i + 1, i + 1));
            }
            start = i + 1;
        } else {
            proof {
                assert(text@.subrange(start as int, i as int).push(c) =~= text@.subrange(
                    start as int,
                    i + 1,
                ));
            }
        }
        i += 1;
    }
    proof {
        assert(text@.subrange(0, n as int) == text@);
    }
    if start < n {
        let line = text.substring_char(start, n);
        let ghost prev = lines@;
        lines.push(line);
        proof {
            assert(views_of(prev.push(line)) =~= views_of(prev).push(line@));
        }
    }
    lines
}

/// Splits a line into its whitespace-delimited tokens.
#[verifier::loop_isolation(false)]
fn tokenize<'a>(line: &'a str) -> (toks: Vec<&'a str>)
    ensures
        views_of(toks@) == spec_tokens(line@),
{
    let n = line.unicode_len();
    let mut toks: Vec<&'a str> = Vec::new();
    let mut start: usize = 0;
    let mut in_tok: bool = false;
    let mut i: usize = 0;
    while i < n
        invariant
            i <= n,
            in_tok ==> start < i,
            views_of(toks@) == tokens_fold(line@.subrange(0, i as int)).0,
            in_tok ==> tokens_fold(line@.subrange(0, i as int)).1 == line@.subrange(
                start as int,
                i as int,
            ),
            !in_tok ==> tokens_fold(line@.subrange(0, i as int)).1 == Seq::<char>::empty(),
        decreases n - i,
    {
        let c = line.get_char(i);
        proof {
            let pre = line@.subrange(0, i as int);
            let ext = line@.subrange(0, i + 1);
            assert(ext.drop_last() == pre);
            assert(ext.last() == c);
        }
        if is_space(c) {
            if in_tok {
                let tok = line.substring_char(start, i);
                let ghost prev = toks@;
                toks.push(tok);
                proof {
                    assert(views_of(prev.push(tok)) =~= views_of(prev).push(tok@));
                }
                in_tok = false;
            }
        } else {
            if !in_tok {
                start = i;
                in_tok = true;
            }
            proof {
                assert(line@.subrange(start as int, i as int).push(c) =~= line@.subrange(
                    start as int,
                    i + 1,
                ));
            }
        }
        i += 1;
    }
    proof {
        assert(line@.subrange(0, n as int) == line@);
    }
    if in_tok {
        let tok = line.substring_char(start, n);
        let ghost prev = toks@;
        toks.push(tok);
        proof {
            assert(views_of(prev.push(tok)) =~= views_of(prev).push(tok@));
        }
    }
    toks
}

// ---------------------------------------------------------------------------
// Executable conversion of one field
// ---------------------------------------------------------------------------

/// The value of the digits of a strict prefix never exceeds the value of all
/// the digits.
proof fn lemma_digits_val_prefix(s: Seq<char>, i: int)
    requires
        0 <= i <= s.len(),
        forall|k: int| 0 <= k < s.len() ==> is_digit_char(#[trigger] s[k]),
    ensures
        digits_val(s.subrange(0, i)) <= digits_val(s),
        digits_val(s) >= 0,
    decreases s.len() - i,
{
    if i == s.len() {
        assert(s.subrange(0, i) == s);
        lemma_digits_val_nonneg(s);
    } else {
        lemma_digits_val_prefix(s, i + 1);
        let p = s.subrange(0, i + 1);
        assert(p.drop_last() == s.subrange(0, i));
        lemma_digits_val_nonneg(s.subrange(0, i));
    }
}

proof fn lemma_digits_val_nonneg(s: Seq<char>)
    requires
        forall|k: int| 0 <= k < s.len() ==> is_digit_char(#[trigger] s[k]),
    ensures
        digits_val(s) >= 0,
    decreases s.len(),
{
    if s.len() > 0 {
        assert(forall|k: int|
            0 <= k < s.drop_last().len() ==> is_digit_char(#[trigger] s.drop_last()[k]));
        lemma_digits_val_nonneg(s.drop_last());
    }
}

impl Cpu {
    /// The conversion of one field, as the snapshot parser applies it: an
    /// absent field is a missing value; a present field must be a decimal
    /// integer, non-negative and fitting in 32 bits, else the error carries
    /// the token verbatim.
    #[verifier::loop_isolation(false)]
    pub fn convert(val: Option<&str>) -> (r: Result<u32, ParseError>)
        ensures
            match (r, spec_convert(match val {
                Option::None => Option::None,
                Option::Some(s) => Option::Some(s@),
            })) {
                (Result::Ok(a), Result::Ok(b)) => a == b,
                (Result::Err(e), Result::Err(f)) => e@ == f,
                _ => false,
            },
    {
        match val {
            Option::None => Result::Err(ParseError::MissingValue),
            Option::Some(s) => {
                let n = s.unicode_len();
                let start: usize = if n > 0 && s.get_char(0) == '+' {
                    1
                } else {
                    0
                };
                let ghost digits = token_digits(s@);
                proof {
                    assert(digits =~= s@.subrange(start as int, n as int));
                }
                if start == n {
                    return Result::Err(ParseError::InvalidInteger(s.to_owned()));
                }
                let mut acc: u32 = 0;
                let mut i: usize = start;
                while i < n
                    invariant
                        start <= i <= n,
                        n == s@.len(),
                        digits == token_digits(s@),
                        digits == s@.subrange(start as int, n as int),
                        forall|k: int| 0 <= k < i - start ==> is_digit_char(#[trigger] digits[k]),
                        acc == digits_val(digits.subrange(0, i - start)),
                    decreases n - i,
                {
                    let c = s.get_char(i);
                    let cv = c as u32;
                    proof {
                        assert(digits[i - start] == c);
                    }
                    if cv < 48 || cv > 57 {
                        proof {
                            assert(!is_digit_char(token_digits(s@)[i - start]));
                            assert(!is_u32_token(s@));
                        }
                        return Result::Err(ParseError::InvalidInteger(s.to_owned()));
                    }
                    let d = cv - 48;
                    if acc > u32::MAX / 10 || (acc == u32::MAX / 10 && d > u32::MAX % 10) {
                        proof {
                            let p = digits.subrange(0, i - start + 1);
                            assert(p.drop_last() == digits.subrange(0, i - start));
                            assert(p.last() == c);
                            assert(digits_val(p) == acc * 10 + d);
                            assert(digits_val(p) > u32::MAX);
                            if forall|k: int|
                                0 <= k < token_digits(s@).len() ==> is_digit_char(
                                    #[trigger] token_digits(s@)[k],
                                ) {
                                lemma_digits_val_prefix(digits, i - start + 1);
                                assert(digits_val(token_digits(s@)) > u32::MAX);
                            }
                            assert(!is_u32_token(s@));
                        }
                        return Result::Err(ParseError::InvalidInteger(s.to_owned()));
                    }
                    proof {
                        let p = digits.subrange(0, i - start + 1);
                        assert(p.drop_last() == digits.subrange(0, i - start));
                    }
                    acc = acc * 10 + d;
                    i += 1;
                }
                proof {
                    assert(digits.subrange(0, n - start) == digits);
                }
                Result::Ok(acc)
            },
        }
    }
}

/// The field at an index, absent when the line ran out of tokens.
fn field_at<'a>(fields: &Vec<&'a str>, j: usize) -> (r: Option<&'a str>)
    ensures
        match r {
            Option::Some(t) => j < fields@.len() && t == fields@[j as int],
            Option::None => j >= fields@.len(),
        },
{
    if j < fields.len() {
        Option::Some(fields[j])
    } else {
        Option::None
    }
}

/// Whether an executable row agrees, view by view, with a row of the
/// mathematical parse.
pub open spec fn cpu_agrees(r: Result<Cpu, ParseError>, s: Result<CpuView, ParseErrorView>) -> bool {
    match (r, s) {
        (Result::Ok(c), Result::Ok(v)) => c@ == v,
        (Result::Err(e), Result::Err(f)) => e@ == f,
        _ => false,
    }
}

impl Cpu {
    /// Parses one row from its name and the fields that follow it on the
    /// line: exactly seven integers, in order, first failure wins; trailing
    /// fields are ignored.
    pub fn parse(name: &str, fields: &Vec<&str>) -> (r: Result<Cpu, ParseError>)
        ensures
            cpu_agrees(r, spec_cpu_parse(name@, views_of(fields@))),
    {
        let ghost vf = views_of(fields@);
        proof {
            assert(vf.len() == fields@.len());
            assert(forall|k: int| 0 <= k < vf.len() ==> vf[k] == #[trigger] fields@[k]@);
        }
        let user = match Self::convert(field_at(fields, 0)) {
            Result::Ok(v) => v,
            Result::Err(e) => {
                proof {
                    assert(spec_check_fields(vf, 0) == Option::Some(e@));
                }
                return Result::Err(e);
            },
        };
        proof {
            assert(spec_check_fields(vf, 0) == spec_check_fields(vf, 1));
        }
        let nice = match Self::convert(field_at(fields, 1)) {
            Result::Ok(v) => v,
            Result::Err(e) => {
                proof {
                    assert(spec_check_fields(vf, 1) == Option::Some(e@));
                }
                return Result::Err(e);
            },
        };
        proof {
            assert(spec_check_fields(vf, 1) == spec_check_fields(vf, 2));
        }
        let system = match Self::convert(field_at(fields, 2)) {
            Result::Ok(v) => v,
            Result::Err(e) => {
                proof {
                    assert(spec_check_fields(vf, 2) == Option::Some(e@));
                }
                return Result::Err(e);
            },
        };
        proof {
            assert(spec_check_fields(vf, 2) == spec_check_fields(vf, 3));
        }
        let idle = match Self::convert(field_at(fields, 3)) {
            Result::Ok(v) => v,
            Result::Err(e) => {
                proof {
                    assert(spec_check_fields(vf, 3) == Option::Some(e@));
                }
                return Result::Err(e);
            },
        };
        proof {
            assert(spec_check_fields(vf, 3) == spec_check_fields(vf, 4));
        }
        let iowait = match Self::convert(field_at(fields, 4)) {
            Result::Ok(v) => v,
            Result::Err(e) => {
                proof {
                    assert(spec_check_fields(vf, 4) == Option::Some(e@));
                }
                return Result::Err(e);
            },
        };
        proof {
            assert(spec_check_fields(vf, 4) == spec_check_fields(vf, 5));
        }
        let irq = match Self::convert(field_at(fields, 5)) {
            Result::Ok(v) => v,
            Result::Err(e) => {
                proof {
                    assert(spec_check_fields(vf, 5) == Option::Some(e@));
                }
                return Result::Err(e);
            },
        };
        proof {
            assert(spec_check_fields(vf, 5) == spec_check_fields(vf, 6));
        }
        let softirq = match Self::convert(field_at(fields, 6)) {
            Result::Ok(v) => v,
            Result::Err(e) => {
                proof {
                    assert(spec_check_fields(vf, 6) == Option::Some(e@));
                }
                return Result::Err(e);
            },
        };
        proof {
            assert(spec_check_fields(vf, 6) == spec_check_fields(vf, 7));
            assert(spec_check_fields(vf, 0) == Option::<ParseErrorView>::None);
        }
        Result::Ok(
            Cpu {
                name: name.to_owned(),
                user,
                nice,
                system,
                idle,
                iowait,
                irq,
                softirq,
            },
        )
    }
}

/// Glues the rows already collected to what the remaining lines yield.
pub open spec fn combine(
    acc: Seq<CpuView>,
    rest: Result<Seq<CpuView>, ParseErrorView>,
) -> Result<Seq<CpuView>, ParseErrorView> {
    match rest {
        Result::Ok(cs) => Result::Ok(acc + cs),
        Result::Err(e) => Result::Err(e),
    }
}

/// Whether a token starts with the literal prefix `cpu`.
fn token_starts_cpu(t: &str) -> (b: bool)
    ensures
        b == starts_cpu(t@),
{
    t.unicode_len() >= 3 && t.get_char(0) == 'c' && t.get_char(1) == 'p' && t.get_char(2) == 'u'
}

impl Stats {
    /// Parses the whole counter text: every line whose first token starts
    /// with `cpu` contributes one row, in line order; the first failing line
    /// decides the error; with no such line the text carries no data.
    #[verifier::loop_isolation(false)]
    pub fn parse(stats_file_content: &str) -> (r: Result<Stats, ParseError>)
        ensures
            parse_agrees(r, spec_parse(stats_file_content@)),
            r is Ok ==> r->Ok_0@.len() > 0,
    {
        let ghost ls = spec_lines(stats_file_content@);
        let lines = split_lines(stats_file_content);
        let mut cpus: Vec<Cpu> = Vec::new();
        let mut li: usize = 0;
        proof {
            assert(ls.skip(0) == ls);
            assert(cpu_views(cpus@) + spec_parse_lines(ls)->Ok_0 =~= spec_parse_lines(ls)->Ok_0);
            assert(spec_parse_lines(ls) == combine(cpu_views(cpus@), spec_parse_lines(ls.skip(0))));
        }
        while li < lines.len()
            invariant
                li <= lines@.len(),
                views_of(lines@) == ls,
                spec_parse_lines(ls) == combine(
                    cpu_views(cpus@),
                    spec_parse_lines(ls.skip(li as int)),
                ),
            decreases lines@.len() - li,
        {
            let ghost rest = ls.skip(li as int);
            proof {
                assert(rest.len() > 0);
                assert(rest[0] == ls[li as int]);
                assert(rest.skip(1) =~= ls.skip(li + 1));
                assert(ls[li as int] == lines@[li as int]@);
            }
            let line = lines[li];
            let toks = tokenize(line);
            let ghost tv = spec_tokens(ls[li as int]);
            proof {
                assert(views_of(toks@) == tv);
                assert(forall|k: int| 0 <= k < tv.len() ==> tv[k] == #[trigger] toks@[k]@);
            }
            let is_cpu = if toks.len() > 0 {
                token_starts_cpu(toks[0])
            } else {
                false
            };
            proof {
                assert(is_cpu == line_is_cpu(ls[li as int]));
            }
            if is_cpu {
                let mut fields: Vec<&str> = Vec::new();
                let mut j: usize = 1;
                while j < toks.len()
                    invariant
                        1 <= j <= toks@.len(),
                        views_of(fields@) == tv.subrange(1, j as int),
                    decreases toks@.len() - j,
                {
                    let ghost prevf = fields@;
                    fields.push(toks[j]);
                    proof {
                        assert(views_of(prevf.push(toks@[j as int])) =~= views_of(prevf).push(
                            tv[j as int],
                        ));
                        assert(tv.subrange(1, j as int).push(tv[j as int]) =~= tv.subrange(
                            1,
                            j + 1,
                        ));
                    }
                    j += 1;
                }
                proof {
                    assert(views_of(fields@) =~= tv.skip(1));
                }
                match Cpu::parse(toks[0], &fields) {
                    Result::Ok(c) => {
                        let ghost prev = cpus@;
                        cpus.push(c);
                        proof {
                            assert(spec_line_result(ls[li as int]) == LineResult::Row(c@));
                            assert(cpu_views(prev.push(c)) =~= cpu_views(prev).push(c@));
                            if spec_parse_lines(rest.skip(1)) is Ok {
                                let tail = spec_parse_lines(rest.skip(1))->Ok_0;
                                assert(cpu_views(prev) + (seq![c@] + tail) =~= cpu_views(
                                    prev,
                                ).push(c@) + tail);
                            }
                        }
                    },
                    Result::Err(e) => {
                        proof {
                            assert(spec_line_result(ls[li as int]) == LineResult::Failed(e@));
                            assert(spec_parse_lines(ls) == Result::<
                                Seq<CpuView>,
                                ParseErrorView,
                            >::Err(e@));
                        }
                        return Result::Err(e);
                    },
                }
            } else {
                proof {
                    assert(spec_line_result(ls[li as int]) == LineResult::Skipped);
                }
            }
            li += 1;
        }
        proof {
            assert(ls.skip(li as int) =~= Seq::<Seq<char>>::empty());
            assert(spec_parse_lines(ls) == combine(
                cpu_views(cpus@),
                Result::<Seq<CpuView>, ParseErrorView>::Ok(Seq::empty()),
            ));
            assert(cpu_views(cpus@) + Seq::<CpuView>::empty() =~= cpu_views(cpus@));
        }
        if cpus.is_empty() {
            Result::Err(ParseError::NoData)
        } else {
            Result::Ok(Stats { cpus })
        }
    }
}

// ---------------------------------------------------------------------------
// Laws of the parse
// ---------------------------------------------------------------------------

/// A `cpu` line whose first seven fields are all present and valid.
pub open spec fn cpu_line_ok(line: Seq<char>) -> bool {
    &&& line_is_cpu(line)
    &&& spec_tokens(line).len() >= 8
    &&& forall|j: int| 1 <= j < 8 ==> is_u32_token(#[trigger] spec_tokens(line)[j])
}

/// The row a well-formed `cpu` line denotes: its first token names it and the
/// seven fields that follow map positionally to user, nice, system, idle,
/// iowait, irq and softirq.
pub open spec fn cpu_of_line(line: Seq<char>) -> CpuView {
    let toks = spec_tokens(line);
    CpuView {
        name: toks[0],
        user: u32_token_val(toks[1]) as u32,
        nice: u32_token_val(toks[2]) as u32,
        system: u32_token_val(toks[3]) as u32,
        idle: u32_token_val(toks[4]) as u32,
        iowait: u32_token_val(toks[5]) as u32,
        irq: u32_token_val(toks[6]) as u32,
        softirq: u32_token_val(toks[7]) as u32,
    }
}

/// The rows of the `cpu` lines among the given lines, in line order.
pub open spec fn collect_rows(ls: Seq<Seq<char>>) -> Seq<CpuView>
    decreases ls.len(),
{
    if ls.len() == 0 {
        Seq::empty()
    } else if line_is_cpu(ls[0]) {
        seq![cpu_of_line(ls[0])] + collect_rows(ls.skip(1))
    } else {
        collect_rows(ls.skip(1))
    }
}

proof fn lemma_check_fields_all_ok(fields: Seq<Seq<char>>, j: int)
    requires
        0 <= j <= 7,
        fields.len() >= 7,
        forall|k: int| j <= k < 7 ==> is_u32_token(#[trigger] fields[k]),
    ensures
        spec_check_fields(fields, j) == Option::<ParseErrorView>::None,
    decreases 7 - j,
{
    if j < 7 {
        lemma_check_fields_all_ok(fields, j + 1);
    }
}

proof fn lemma_check_fields_missing(fields: Seq<Seq<char>>, j: int)
    requires
        0 <= j <= fields.len(),
        fields.len() < 7,
        forall|k: int| j <= k < fields.len() ==> is_u32_token(#[trigger] fields[k]),
    ensures
        spec_check_fields(fields, j) == Option::Some(ParseErrorView::MissingValue),
    decreases 7 - j,
{
    if j < fields.len() {
        lemma_check_fields_missing(fields, j + 1);
    }
}

proof fn lemma_check_fields_invalid(fields: Seq<Seq<char>>, j: int, fj: int)
    requires
        0 <= j <= fj < 7,
        fj < fields.len(),
        forall|k: int| j <= k < fj ==> is_u32_token(#[trigger] fields[k]),
        !is_u32_token(fields[fj]),
    ensures
        spec_check_fields(fields, j) == Option::Some(ParseErrorView::InvalidInteger(fields[fj])),
    decreases fj - j,
{
    if j < fj {
        lemma_check_fields_invalid(fields, j + 1, fj);
    }
}

proof fn lemma_line_ok(line: Seq<char>)
    requires
        cpu_line_ok(line),
    ensures
        spec_line_result(line) == LineResult::Row(cpu_of_line(line)),
{
    let toks = spec_tokens(line);
    let fields = toks.skip(1);
    assert(forall|k: int| 0 <= k < fields.len() ==> fields[k] == #[trigger] toks[k + 1]);
    lemma_check_fields_all_ok(fields, 0);
}

proof fn lemma_line_missing(line: Seq<char>)
    requires
        line_is_cpu(line),
        spec_tokens(line).len() < 8,
        forall|j: int|
            1 <= j < spec_tokens(line).len() ==> is_u32_token(#[trigger] spec_tokens(line)[j]),
    ensures
        spec_line_result(line) == LineResult::Failed(ParseErrorView::MissingValue),
{
    let toks = spec_tokens(line);
    let fields = toks.skip(1);
    assert(forall|k: int| 0 <= k < fields.len() ==> fields[k] == #[trigger] toks[k + 1]);
    lemma_check_fields_missing(fields, 0);
}

proof fn lemma_line_invalid(line: Seq<char>, fj: int)
    requires
        line_is_cpu(line),
        1 <= fj < 8,
        fj < spec_tokens(line).len(),
        forall|j: int| 1 <= j < fj ==> is_u32_token(#[trigger] spec_tokens(line)[j]),
        !is_u32_token(spec_tokens(line)[fj]),
    ensures
        spec_line_result(line) == LineResult::Failed(
            ParseErrorView::InvalidInteger(spec_tokens(line)[fj]),
        ),
{
    let toks = spec_tokens(line);
    let fields = toks.skip(1);
    assert(forall|k: int| 0 <= k < fields.len() ==> fields[k] == #[trigger] toks[k + 1]);
    lemma_check_fields_invalid(fields, 0, fj - 1);
}

proof fn lemma_parse_lines_all_ok(ls: Seq<Seq<char>>)
    requires
        forall|i: int|
            0 <= i < ls.len() && line_is_cpu(#[trigger] ls[i]) ==> cpu_line_ok(ls[i]),
    ensures
        spec_parse_lines(ls) == Result::<Seq<CpuView>, ParseErrorView>::Ok(collect_rows(ls)),
    decreases ls.len(),
{
    if ls.len() > 0 {
        let tail = ls.skip(1);
        assert(forall|i: int| 0 <= i < tail.len() ==> tail[i] == #[trigger] ls[i + 1]);
        lemma_parse_lines_all_ok(tail);
        if line_is_cpu(ls[0]) {
            lemma_line_ok(ls[0]);
        }
    }
}

proof fn lemma_parse_lines_first_fail(ls: Seq<Seq<char>>, li: int, e: ParseErrorView)
    requires
        0 <= li < ls.len(),
        forall|i: int| 0 <= i < li && line_is_cpu(#[trigger] ls[i]) ==> cpu_line_ok(ls[i]),
        spec_line_result(ls[li]) == LineResult::Failed(e),
    ensures
        spec_parse_lines(ls) == Result::<Seq<CpuView>, ParseErrorView>::Err(e),
    decreases li,
{
    if li > 0 {
        let tail = ls.skip(1);
        assert(forall|i: int| 0 <= i < tail.len() ==> tail[i] == #[trigger] ls[i + 1]);
        if line_is_cpu(ls[0]) {
            lemma_line_ok(ls[0]);
        }
        lemma_parse_lines_first_fail(tail, li - 1, e);
    }
}

proof fn lemma_collect_nonempty(ls: Seq<Seq<char>>, i: int)
    requires
        0 <= i < ls.len(),
        line_is_cpu(ls[i]),
    ensures
        collect_rows(ls).len() > 0,
    decreases i,
{
    if i > 0 {
        let tail = ls.skip(1);
        assert(tail[i - 1] == ls[i]);
        lemma_collect_nonempty(tail, i - 1);
    }
}

proof fn lemma_collect_empty(ls: Seq<Seq<char>>)
    requires
        forall|i: int| 0 <= i < ls.len() ==> !line_is_cpu(#[trigger] ls[i]),
    ensures
        collect_rows(ls).len() == 0,
    decreases ls.len(),
{
    if ls.len() > 0 {
        let tail = ls.skip(1);
        assert(forall|i: int| 0 <= i < tail.len() ==> tail[i] == #[trigger] ls[i + 1]);
        lemma_collect_empty(tail);
    }
}

/// Law: a counter text in which every `cpu` line carries at least seven
/// valid integer fields, and that has at least one such line, parses to
/// exactly the rows of those lines, in line order, fields mapped
/// positionally.
pub proof fn lemma_parse_well_formed(s: Seq<char>)
    requires
        forall|i: int|
            0 <= i < spec_lines(s).len() && line_is_cpu(#[trigger] spec_lines(s)[i])
                ==> cpu_line_ok(spec_lines(s)[i]),
        exists|i: int| 0 <= i < spec_lines(s).len() && line_is_cpu(#[trigger] spec_lines(s)[i]),
    ensures
        spec_parse(s) == Result::<Seq<CpuView>, ParseErrorView>::Ok(collect_rows(spec_lines(s))),
        collect_rows(spec_lines(s)).len() > 0,
{
    lemma_parse_lines_all_ok(spec_lines(s));
    let i = choose|i: int|
        0 <= i < spec_lines(s).len() && line_is_cpu(#[trigger] spec_lines(s)[i]);
    lemma_collect_nonempty(spec_lines(s), i);
}

/// Law: counter text with no `cpu` line, empty text included, parses to the
/// error that no CPU stats are available, whatever else the text holds.
pub proof fn lemma_parse_no_data(s: Seq<char>)
    requires
        forall|i: int| 0 <= i < spec_lines(s).len() ==> !line_is_cpu(#[trigger] spec_lines(s)[i]),
    ensures
        spec_parse(s) == Result::<Seq<CpuView>, ParseErrorView>::Err(ParseErrorView::NoData),
{
    lemma_parse_lines_all_ok(spec_lines(s));
    lemma_collect_empty(spec_lines(s));
}

proof fn lemma_parse_lines_missing(ls: Seq<Seq<char>>)
    requires
        forall|i: int, j: int|
            0 <= i < ls.len() && line_is_cpu(ls[i]) && 1 <= j < 8 && j < spec_tokens(ls[i]).len()
                ==> is_u32_token(#[trigger] spec_tokens(ls[i])[j]),
        exists|i: int|
            0 <= i < ls.len() && line_is_cpu(#[trigger] ls[i]) && spec_tokens(ls[i]).len() < 8,
    ensures
        spec_parse_lines(ls) == Result::<Seq<CpuView>, ParseErrorView>::Err(
            ParseErrorView::MissingValue,
        ),
    decreases ls.len(),
{
    if line_is_cpu(ls[0]) && spec_tokens(ls[0]).len() < 8 {
        assert(forall|j: int|
            1 <= j < spec_tokens(ls[0]).len() ==> is_u32_token(#[trigger] spec_tokens(ls[0])[j]));
        lemma_line_missing(ls[0]);
        lemma_parse_lines_first_fail(ls, 0, ParseErrorView::MissingValue);
    } else {
        if line_is_cpu(ls[0]) {
            assert(forall|j: int|
                1 <= j < 8 ==> is_u32_token(#[trigger] spec_tokens(ls[0])[j]));
            lemma_line_ok(ls[0]);
        }
        let tail = ls.skip(1);
        assert(forall|i: int| 0 <= i < tail.len() ==> tail[i] == #[trigger] ls[i + 1]);
        let wi = choose|i: int|
            0 <= i < ls.len() && line_is_cpu(#[trigger] ls[i]) && spec_tokens(ls[i]).len() < 8;
        assert(wi > 0);
        assert(line_is_cpu(tail[wi - 1]) && spec_tokens(tail[wi - 1]).len() < 8);
        lemma_parse_lines_missing(tail);
    }
}

/// Law: when every `cpu` line's present leading fields are valid integers
/// but some `cpu` line has fewer than seven fields, the parse fails with a
/// missing value and returns no rows, well-formed earlier lines
/// notwithstanding.
pub proof fn lemma_parse_missing_value(s: Seq<char>)
    requires
        forall|i: int, j: int|
            0 <= i < spec_lines(s).len() && line_is_cpu(spec_lines(s)[i]) && 1 <= j < 8 && j
                < spec_tokens(spec_lines(s)[i]).len() ==> is_u32_token(
                #[trigger] spec_tokens(spec_lines(s)[i])[j],
            ),
        exists|i: int|
            0 <= i < spec_lines(s).len() && line_is_cpu(#[trigger] spec_lines(s)[i])
                && spec_tokens(spec_lines(s)[i]).len() < 8,
    ensures
        spec_parse(s) == Result::<Seq<CpuView>, ParseErrorView>::Err(ParseErrorView::MissingValue),
{
    lemma_parse_lines_missing(spec_lines(s));
}

/// Law: when every `cpu` line before a given one is well formed and that
/// line's fields are valid up to a field that is present but no 32-bit
/// integer, the parse fails naming that token verbatim and returns no rows.
pub proof fn lemma_parse_invalid_integer(s: Seq<char>, li: int, fj: int)
    requires
        0 <= li < spec_lines(s).len(),
        line_is_cpu(spec_lines(s)[li]),
        forall|i: int|
            0 <= i < li && line_is_cpu(#[trigger] spec_lines(s)[i]) ==> cpu_line_ok(
                spec_lines(s)[i],
            ),
        1 <= fj < 8,
        fj < spec_tokens(spec_lines(s)[li]).len(),
        forall|j: int|
            1 <= j < fj ==> is_u32_token(#[trigger] spec_tokens(spec_lines(s)[li])[j]),
        !is_u32_token(spec_tokens(spec_lines(s)[li])[fj]),
    ensures
        spec_parse(s) == Result::<Seq<CpuView>, ParseErrorView>::Err(
            ParseErrorView::InvalidInteger(spec_tokens(spec_lines(s)[li])[fj]),
        ),
{
    lemma_line_invalid(spec_lines(s)[li], fj);
    lemma_parse_lines_first_fail(
        spec_lines(s),
        li,
        ParseErrorView::InvalidInteger(spec_tokens(spec_lines(s)[li])[fj]),
    );
}

} // verus!
