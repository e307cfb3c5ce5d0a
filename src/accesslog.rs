//! Parsing and filtering of access-log lines.

use vstd::prelude::*;

use crate::date::{parse_date, parsed_date, Date};
use crate::text::{has_infix, lower_of, mentions_bot, push_char, push_text};

verus! {

/// The structure of an access-log line: bracketed date, client address,
/// request path, response code, quoted referrer and quoted user agent.
pub const LINE_PATTERN: &'static str = r#"^\[(?P<date>[0-9]{2}/[A-Za-z]{3}/[0-9]{4}).+\] (?P<ip>[0-9]+\.[0-9]+\.[0-9]+\.[0-9]+).* (?P<path>/.*) (?P<resp_code>[0-9]{3}) (?P<referrer>".*") "(?P<user_agent>.*)"$"#;

/// The format of the date token of a line, as in `01/Jan/2023`.
pub const DATE_FORMAT: &'static str = "%d/%b/%Y";

#[verifier::external_type_specification]
#[verifier::external_body]
pub struct ExRegex(regex::Regex);

/// Whether `regex::Regex::new` accepts a pattern.
pub uninterp spec fn compiles(pattern: Seq<char>) -> bool;

/// Relies on `regex::Regex::new`: compiles a pattern, or gives nothing when
/// the pattern is not a valid expression; which of the two depends on the
/// pattern alone.
#[verifier::external_body]
fn compile(pattern: &str) -> (r: Option<regex::Regex>)
    ensures
        r is Some == compiles(pattern@),
{
    regex::Regex::new(pattern).ok()
}

/// The compiled form of `LINE_PATTERN`.
pub struct LinePattern {
    re: regex::Regex,
}

/// The named groups that `LINE_PATTERN` captures from a line.
pub struct Captured {
    pub date: Option<String>,
    pub ip: Option<String>,
    pub path: Option<String>,
    pub user_agent: Option<String>,
}

/// Date, address, path and user agent as text, where captured.
pub type CapturedView = (Option<Seq<char>>, Option<Seq<char>>, Option<Seq<char>>, Option<Seq<char>>);

pub open spec fn opt_view(o: Option<String>) -> Option<Seq<char>> {
    match o {
        Some(s) => Some(s@),
        None => None,
    }
}

pub open spec fn captured_view(c: Option<Captured>) -> Option<CapturedView> {
    match c {
        Some(c) => Some((opt_view(c.date), opt_view(c.ip), opt_view(c.path), opt_view(c.user_agent))),
        None => None,
    }
}

/// What `regex::Regex::captures` finds in a line with `LINE_PATTERN`: the
/// groups `date`, `ip`, `path` and `user_agent`, or nothing on no match.
pub uninterp spec fn line_captures(line: Seq<char>) -> Option<CapturedView>;

/// Relies on `regex::Regex::captures` and `Captures::name`: a value of
/// `LinePattern` is only ever made from `LINE_PATTERN`, so what is found
/// depends on the line alone.
#[verifier::external_body]
fn capture(pattern: &LinePattern, line: &str) -> (r: Option<Captured>)
    ensures
        captured_view(r) == line_captures(line@),
{
    pattern.re.captures(line).map(|c| Captured {
        date: c.name("date").map(|m| m.as_str().to_string()),
        ip: c.name("ip").map(|m| m.as_str().to_string()),
        path: c.name("path").map(|m| m.as_str().to_string()),
        user_agent: c.name("user_agent").map(|m| m.as_str().to_string()),
    })
}

impl LinePattern {
    /// Compiles `LINE_PATTERN`.
    pub fn new() -> (r: Option<LinePattern>)
        ensures
            r is Some == compiles(LINE_PATTERN@),
    {
        match compile(LINE_PATTERN) {
            Some(re) => Some(LinePattern { re }),
            None => None,
        }
    }
}

/// Why a line was rejected.
#[derive(Clone, Copy, Debug, PartialEq, Eq, Structural)]
pub enum LineError {
    /// The line does not have the structure of `LINE_PATTERN`.
    Format,
    MissingDate,
    MissingIp,
    MissingPath,
    MissingUserAgent,
    /// The date token is not a calendar date in `DATE_FORMAT` with a four-digit year.
    InvalidDate,
}

/// A rejected line, by its 1-based number.
#[derive(Clone, Copy, Debug, PartialEq, Eq, Structural)]
pub struct ParseError {
    pub line: usize,
    pub reason: LineError,
}

/// A record as date text and address text.
pub type RecordView = (Seq<char>, Seq<char>);

/// Single accepted line of an access log: the visit's date as `YYYY-MM-DD`
/// and the client's address.
#[derive(Clone, Debug)]
pub struct AccessLogLine {
    pub date: String,
    pub ip: String,
}

impl View for AccessLogLine {
    type V = RecordView;

    open spec fn view(&self) -> RecordView {
        (self.date@, self.ip@)
    }
}

impl AccessLogLine {
    /// The line in its printed form, `[date ip]`.
    pub fn to_text(&self) -> (r: String)
        ensures
            r@ == seq!['['] + self.date@ + seq![' '] + self.ip@ + seq![']'],
    {
        let mut s = String::new();
        push_char(&mut s, '[');
        push_text(&mut s, self.date.as_str());
        push_char(&mut s, ' ');
        push_text(&mut s, self.ip.as_str());
        push_char(&mut s, ']');
        assert(s@ =~= seq!['['] + self.date@ + seq![' '] + self.ip@ + seq![']']);
        s
    }
}

/// The root path, the only one that counts as a visit.
pub open spec fn root_path() -> Seq<char> {
    seq!['/']
}

/// A user agent that names itself a bot, in any case.
pub open spec fn is_bot(user_agent: Seq<char>) -> bool {
    has_infix(lower_of(user_agent), seq!['b', 'o', 't'])
}

/// What one line gives: nothing (empty, or not a counted visit), a record, or
/// the reason it is malformed.
pub open spec fn line_outcome(line: Seq<char>) -> Result<Option<RecordView>, LineError> {
    if line.len() == 0 {
        Ok(None)
    } else {
        match line_captures(line) {
            None => Err(LineError::Format),
            Some((date, ip, path, user_agent)) => {
                if date is None {
                    Err(LineError::MissingDate)
                } else if ip is None {
                    Err(LineError::MissingIp)
                } else if path is None {
                    Err(LineError::MissingPath)
                } else if user_agent is None {
                    Err(LineError::MissingUserAgent)
                } else if path->0 != root_path() || is_bot(user_agent->0) {
                    Ok(None)
                } else {
                    match parsed_date(date->0, DATE_FORMAT@) {
                        Some(d) => if d.four_digit_year() {
                            Ok(Some((d.iso_text(), ip->0)))
                        } else {
                            Err(LineError::InvalidDate)
                        },
                        None => Err(LineError::InvalidDate),
                    }
                }
            },
        }
    }
}

pub open spec fn outcome_view(r: Result<Option<AccessLogLine>, LineError>) -> Result<Option<RecordView>, LineError> {
    match r {
        Ok(Some(l)) => Ok(Some(l@)),
        Ok(None) => Ok(None),
        Err(e) => Err(e),
    }
}

fn is_root(path: &str) -> (r: bool)
    ensures
        r == (path@ == root_path()),
{
    let chars = crate::text::chars_of(path);
    if chars.len() == 1 && chars[0] == '/' {
        assert(chars@ =~= root_path());
        true
    } else {
        false
    }
}

/// Parses one line and decides whether it is a counted visit.
pub fn parse_line(line: &str, pattern: &LinePattern) -> (r: Result<Option<AccessLogLine>, LineError>)
    ensures
        outcome_view(r) == line_outcome(line@),
{
    if line.is_empty() {
        return Ok(None);
    }
    let c = match capture(pattern, line) {
        Some(c) => c,
        None => return Err(LineError::Format),
    };
    let date = match c.date {
        Some(d) => d,
        None => return Err(LineError::MissingDate),
    };
    let ip = match c.ip {
        Some(i) => i,
        None => return Err(LineError::MissingIp),
    };
    let path = match c.path {
        Some(p) => p,
        None => return Err(LineError::MissingPath),
    };
    let user_agent = match c.user_agent {
        Some(u) => u,
        None => return Err(LineError::MissingUserAgent),
    };
    if !is_root(path.as_str()) || mentions_bot(user_agent.as_str()) {
        return Ok(None);
    }
    match dated_record(parse_date(date.as_str(), DATE_FORMAT), ip) {
        Ok(line) => Ok(Some(line)),
        Err(e) => Err(e),
    }
}

/// The record of a visit on `day` from `ip`, with the date as `YYYY-MM-DD`;
/// a day that did not parse, or whose year has more than four digits, is
/// an invalid date.
pub fn dated_record(day: Option<Date>, ip: String) -> (r: Result<AccessLogLine, LineError>)
    ensures
        match day {
            Some(d) => if d.four_digit_year() {
                r matches Ok(line) && line@ == (d.iso_text(), ip@)
            } else {
                r == Err::<AccessLogLine, LineError>(LineError::InvalidDate)
            },
            None => r == Err::<AccessLogLine, LineError>(LineError::InvalidDate),
        },
{
    match day {
        Some(d) => {
            if d.year < 0 || d.year > 9999 {
                return Err(LineError::InvalidDate);
            }
            Ok(AccessLogLine { date: d.to_iso(), ip })
        },
        None => Err(LineError::InvalidDate),
    }
}

/// Parsed access log: the accepted lines in input order, and the lines that
/// were rejected and skipped.
#[derive(Clone, Debug)]
pub struct AccessLog {
    pub lines: Vec<AccessLogLine>,
    pub skipped: Vec<ParseError>,
}

pub open spec fn line_views(lines: Seq<String>) -> Seq<Seq<char>> {
    lines.map_values(|l: String| l@)
}

pub open spec fn record_views(lines: Seq<AccessLogLine>) -> Seq<RecordView> {
    lines.map_values(|l: AccessLogLine| l@)
}

/// The records that a sequence of lines gives, in input order.
pub open spec fn records(lines: Seq<Seq<char>>) -> Seq<RecordView>
    decreases lines.len(),
{
    if lines.len() == 0 {
        Seq::empty()
    } else {
        let earlier = records(lines.drop_last());
        match line_outcome(lines.last()) {
            Ok(Some(r)) => earlier.push(r),
            _ => earlier,
        }
    }
}

/// The malformed lines among `lines`, by 1-based number, in input order.
pub open spec fn failures(lines: Seq<Seq<char>>) -> Seq<ParseError>
    decreases lines.len(),
{
    if lines.len() == 0 {
        Seq::empty()
    } else {
        let earlier = failures(lines.drop_last());
        match line_outcome(lines.last()) {
            Err(e) => earlier.push(ParseError { line: lines.len() as usize, reason: e }),
            _ => earlier,
        }
    }
}

/// A line gives a record.
pub open spec fn yields_record(line: Seq<char>) -> bool {
    line_outcome(line) matches Ok(Some(_))
}

/// A line is malformed.
pub open spec fn is_malformed(line: Seq<char>) -> bool {
    line_outcome(line) is Err
}

impl AccessLog {
    /// All addresses of the log, one per accepted line, in order.
    pub fn get_ips(&self) -> (r: Vec<String>)
        ensures
            r@.len() == self.lines@.len(),
            forall|i: int| 0 <= i < r@.len() ==> r@[i]@ == self.lines@[i].ip@,
    {
        let mut out: Vec<String> = Vec::new();
        let mut i: usize = 0;
        while i < self.lines.len()
            invariant
                i <= self.lines@.len(),
                out@.len() == i,
                forall|j: int| 0 <= j < i ==> out@[j]@ == self.lines@[j].ip@,
            decreases self.lines@.len() - i,
        {
            out.push(self.lines[i].ip.clone());
            i = i + 1;
        }
        out
    }
}

/// Parses the lines of one log file. Empty lines are skipped. With
/// `skip_invalid`, malformed lines are collected in `skipped` and parsing
/// goes on; without it, the first malformed line is the error.
pub fn parse_with(lines: &Vec<String>, pattern: &LinePattern, skip_invalid: bool) -> (r: Result<AccessLog, ParseError>)
    requires
        lines@.len() < usize::MAX,
    ensures
        ({
            let ls = line_views(lines@);
            if skip_invalid || failures(ls).len() == 0 {
                r matches Ok(log) && record_views(log.lines@) == records(ls) && log.skipped@ == failures(ls)
            } else {
                r == Err::<AccessLog, ParseError>(failures(ls)[0])
            }
        }),
{
    let ghost ls = line_views(lines@);
    let mut accepted: Vec<AccessLogLine> = Vec::new();
    let mut skipped: Vec<ParseError> = Vec::new();
    let mut i: usize = 0;
    while i < lines.len()
        invariant
            ls == line_views(lines@),
            lines@.len() < usize::MAX,
            i <= lines@.len(),
            record_views(accepted@) == records(ls.take(i as int)),
            skipped@ == failures(ls.take(i as int)),
            !skip_invalid ==> skipped@.len() == 0,
        decreases lines@.len() - i,
    {
        let ghost pre = ls.take(i as int);
        proof {
            assert(ls.take(i + 1).drop_last() =~= pre);
            assert(ls.take(i + 1).last() == lines@[i as int]@);
        }
        match parse_line(lines[i].as_str(), pattern) {
            Ok(Some(line)) => {
                accepted.push(line);
                assert(record_views(accepted@) =~= records(pre).push(accepted@.last()@));
            },
            Ok(None) => {},
            Err(reason) => {
                let err = ParseError { line: i + 1, reason };
                if !skip_invalid {
                    proof {
                        assert(failures(ls.take(i + 1)) =~= seq![err]);
                        lemma_failures_prefix(ls, i + 1);
                    }
                    return Err(err);
                }
                skipped.push(err);
            },
        }
        i = i + 1;
    }
    assert(ls.take(lines@.len() as int) =~= ls);
    Ok(AccessLog { lines: accepted, skipped })
}

/// Why a log could not be parsed.
#[derive(Clone, Copy, Debug, PartialEq, Eq, Structural)]
pub enum LogError {
    /// `LINE_PATTERN` did not compile.
    Pattern,
    /// A malformed line, when malformed lines are not skipped.
    Line(ParseError),
}

/// Parses the lines of one log file with `LINE_PATTERN`; see `parse_with`.
pub fn parse(lines: &Vec<String>, skip_invalid: bool) -> (r: Result<AccessLog, LogError>)
    requires
        lines@.len() < usize::MAX,
    ensures
        (r == Err::<AccessLog, LogError>(LogError::Pattern)) == !compiles(LINE_PATTERN@),
        r != Err::<AccessLog, LogError>(LogError::Pattern) ==> ({
            let ls = line_views(lines@);
            if skip_invalid || failures(ls).len() == 0 {
                r matches Ok(log) && record_views(log.lines@) == records(ls) && log.skipped@ == failures(ls)
            } else {
                r == Err::<AccessLog, LogError>(LogError::Line(failures(ls)[0]))
            }
        }),
{
    let pattern = match LinePattern::new() {
        Some(p) => p,
        None => return Err(LogError::Pattern),
    };
    match parse_with(lines, &pattern, skip_invalid) {
        Ok(log) => Ok(log),
        Err(e) => Err(LogError::Line(e)),
    }
}

impl AccessLog {
    /// Appends the lines and skipped lines of `other`, as for the next file
    /// of one logical stream.
    pub fn append(&mut self, other: AccessLog)
        ensures
            final(self).lines@ == old(self).lines@ + other.lines@,
            final(self).skipped@ == old(self).skipped@ + other.skipped@,
    {
        let mut other = other;
        self.lines.append(&mut other.lines);
        self.skipped.append(&mut other.skipped);
    }
}

/// A line with the structure of the log whose path is `/` and whose user
/// agent is no bot gives exactly one record, with its date as `YYYY-MM-DD`
/// and its address, after those of the lines before it.
pub proof fn lemma_root_visit_recorded(
    before: Seq<Seq<char>>,
    line: Seq<char>,
    date: Seq<char>,
    ip: Seq<char>,
    user_agent: Seq<char>,
    day: Date,
)
    requires
        line.len() > 0,
        line_captures(line) == Some((Some(date), Some(ip), Some(root_path()), Some(user_agent))),
        !is_bot(user_agent),
        parsed_date(date, DATE_FORMAT@) == Some(day),
        day.four_digit_year(),
    ensures
        records(before.push(line)) == records(before).push((day.iso_text(), ip)),
        failures(before.push(line)) == failures(before),
        day.iso_text().len() == 10,
        day.iso_text()[4] == '-' && day.iso_text()[7] == '-',
{
    assert(before.push(line).drop_last() =~= before);
    reveal_with_fuel(crate::text::padded_digits, 5);
}

/// A line whose path is not `/`, or whose user agent names a bot in any
/// case, gives no record and no error.
pub proof fn lemma_noise_dropped(
    before: Seq<Seq<char>>,
    line: Seq<char>,
    date: Seq<char>,
    ip: Seq<char>,
    path: Seq<char>,
    user_agent: Seq<char>,
)
    requires
        line_captures(line) == Some((Some(date), Some(ip), Some(path), Some(user_agent))),
        path != root_path() || is_bot(user_agent),
    ensures
        records(before.push(line)) == records(before),
        failures(before.push(line)) == failures(before),
{
    assert(before.push(line).drop_last() =~= before);
}

/// A line with the structure of the log that is no counted visit: its path
/// is not `/`, or its user agent names a bot.
pub open spec fn is_noise(line: Seq<char>) -> bool {
    match line_captures(line) {
        Some((Some(_), Some(_), Some(path), Some(user_agent))) => path != root_path() || is_bot(user_agent),
        _ => false,
    }
}

/// The lines that are not noise, in order.
pub open spec fn signal(lines: Seq<Seq<char>>) -> Seq<Seq<char>> {
    lines.filter(|l: Seq<char>| !is_noise(l))
}

/// Noise lines change nothing: the records are those of the other lines
/// alone, and so is the number of malformed lines.
pub proof fn lemma_noise_ignored(lines: Seq<Seq<char>>)
    ensures
        records(lines) == records(signal(lines)),
        failures(lines).len() == failures(signal(lines)).len(),
    decreases lines.len(),
{
    reveal(Seq::filter);
    if lines.len() > 0 {
        let rest = lines.drop_last();
        lemma_noise_ignored(rest);
        let last = lines.last();
        if !is_noise(last) {
            assert(signal(lines) == signal(rest).push(last));
            assert(signal(lines).drop_last() =~= signal(rest));
        } else {
            assert(signal(lines) == signal(rest));
        }
    }
}

/// Inserting noise lines anywhere in a log keeps its records, in order, and
/// its number of malformed lines.
pub proof fn lemma_inserted_noise_keeps_records(lines: Seq<Seq<char>>, with_noise: Seq<Seq<char>>)
    requires
        signal(with_noise) == signal(lines),
    ensures
        records(with_noise) == records(lines),
        failures(with_noise).len() == failures(lines).len(),
{
    lemma_noise_ignored(lines);
    lemma_noise_ignored(with_noise);
}

/// With malformed lines skipped, there are as many records as lines that
/// give one, and as many diagnostics as malformed lines.
pub proof fn lemma_skip_counts(lines: Seq<Seq<char>>)
    ensures
        records(lines).len() == lines.filter(|l: Seq<char>| yields_record(l)).len(),
        failures(lines).len() == lines.filter(|l: Seq<char>| is_malformed(l)).len(),
    decreases lines.len(),
{
    reveal(Seq::filter);
    if lines.len() > 0 {
        lemma_skip_counts(lines.drop_last());
    }
}

/// The first error is that of the first malformed line.
pub proof fn lemma_first_failure(lines: Seq<Seq<char>>, i: int)
    requires
        0 <= i < lines.len(),
        lines.len() <= usize::MAX,
        is_malformed(lines[i]),
        forall|j: int| 0 <= j < i ==> !is_malformed(lines[j]),
    ensures
        failures(lines).len() > 0,
        failures(lines)[0].line == i + 1,
        failures(lines)[0].reason == line_outcome(lines[i])->Err_0,
{
    lemma_no_failures(lines.take(i));
    assert(lines.take(i + 1).drop_last() =~= lines.take(i));
    assert(lines.take(i + 1).last() == lines[i]);
    assert(failures(lines.take(i + 1)).len() == 1);
    lemma_failures_prefix(lines, i + 1);
}

proof fn lemma_no_failures(lines: Seq<Seq<char>>)
    requires
        forall|j: int| 0 <= j < lines.len() ==> !is_malformed(lines[j]),
    ensures
        failures(lines).len() == 0,
    decreases lines.len(),
{
    if lines.len() > 0 {
        lemma_no_failures(lines.drop_last());
    }
}

/// The failures of a prefix start the failures of the whole.
pub proof fn lemma_failures_prefix(lines: Seq<Seq<char>>, n: int)
    requires
        0 <= n <= lines.len(),
    ensures
        failures(lines.take(n)).len() <= failures(lines).len(),
        forall|k: int| 0 <= k < failures(lines.take(n)).len() ==> failures(lines)[k] == failures(lines.take(n))[k],
    decreases lines.len() - n,
{
    if n < lines.len() {
        lemma_failures_prefix(lines, n + 1);
        assert(lines.take(n + 1).drop_last() =~= lines.take(n));
    } else {
        assert(lines.take(n) =~= lines);
    }
}

} // verus!
