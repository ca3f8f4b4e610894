//! What a run has to say, as lines for a sink with two channels.

use crate::annotation::texts;
use crate::visitor::{results_view, CheckResult, Finding};
use vstd::prelude::*;
use vstd::string::*;

verus! {

/// The channel of a line.
#[derive(Clone, Copy, Debug, PartialEq, Eq)]
pub enum Level {
    /// The informational channel.
    Info,
    /// The elevated channel.
    Warn,
}

/// What a line says.
#[derive(Debug, PartialEq, Eq)]
pub enum Message {
    /// Opens the report on a safe function that wraps unsafe code.
    SafeFunction { name: String },
    /// The function calls this guarded API.
    UnsafeApi { name: String },
    /// The argument at `index` fails the contracts of these names.
    FailedArgument { index: usize, contracts: Vec<String> },
    /// Opens the report on an unsafe function.
    UnsafeFunction { name: String },
    /// The function exercises the contracts of these names and documents none
    /// of them.
    MissingAnnotations { contracts: Vec<String> },
}

/// One line of a report.
#[derive(Debug, PartialEq, Eq)]
pub struct ReportLine {
    pub level: Level,
    pub message: Message,
}

/// What a `Message` says.
pub enum Said {
    SafeFunction { name: Seq<char> },
    UnsafeApi { name: Seq<char> },
    FailedArgument { index: usize, contracts: Seq<Seq<char>> },
    UnsafeFunction { name: Seq<char> },
    MissingAnnotations { contracts: Seq<Seq<char>> },
}

/// What a `ReportLine` says, and on which channel.
pub struct Line {
    pub level: Level,
    pub said: Said,
}

impl View for Message {
    type V = Said;

    open spec fn view(&self) -> Said {
        match *self {
            Message::SafeFunction { name } => Said::SafeFunction { name: name@ },
            Message::UnsafeApi { name } => Said::UnsafeApi { name: name@ },
            Message::FailedArgument { index, contracts } => Said::FailedArgument {
                index,
                contracts: texts(contracts@),
            },
            Message::UnsafeFunction { name } => Said::UnsafeFunction { name: name@ },
            Message::MissingAnnotations { contracts } => Said::MissingAnnotations {
                contracts: texts(contracts@),
            },
        }
    }
}

impl View for ReportLine {
    type V = Line;

    open spec fn view(&self) -> Line {
        Line { level: self.level, said: self.message@ }
    }
}

/// What a list of lines says.
pub open spec fn lines_view(v: Seq<ReportLine>) -> Seq<Line> {
    v.map_values(|l: ReportLine| l@)
}

/// One line on the elevated channel for each of the first `k` arguments that
/// failed.
pub open spec fn failed_lines(failed: Seq<(usize, Seq<Seq<char>>)>, k: nat) -> Seq<Line>
    decreases k,
{
    if k == 0 {
        Seq::empty()
    } else {
        failed_lines(failed, (k - 1) as nat).push(
            Line {
                level: Level::Warn,
                said: Said::FailedArgument { index: failed[k - 1].0, contracts: failed[k - 1].1 },
            },
        )
    }
}

/// The channel for a guarded call: elevated where an argument failed.
pub open spec fn level_of(finding: Finding) -> Level {
    if finding.failed.len() > 0 {
        Level::Warn
    } else {
        Level::Info
    }
}

/// The lines for one guarded call: the API, then each argument that failed.
pub open spec fn finding_lines(finding: Finding) -> Seq<Line> {
    seq![Line { level: level_of(finding), said: Said::UnsafeApi { name: finding.name } }]
        + failed_lines(finding.failed, finding.failed.len())
}

/// The lines for the first `k` guarded calls.
pub open spec fn findings_lines(findings: Seq<Finding>, k: nat) -> Seq<Line>
    decreases k,
{
    if k == 0 {
        Seq::empty()
    } else {
        findings_lines(findings, (k - 1) as nat) + finding_lines(findings[k - 1])
    }
}

/// The report on a safe function: the function, then its guarded calls.
pub open spec fn check_lines(name: Seq<char>, findings: Seq<Finding>) -> Seq<Line> {
    seq![Line { level: Level::Info, said: Said::SafeFunction { name } }] + findings_lines(
        findings,
        findings.len(),
    )
}

/// The report on an unsafe function: the function on the informational
/// channel, then the contracts it lacks on the elevated one.
pub open spec fn annotation_lines(name: Seq<char>, contracts: Seq<Seq<char>>) -> Seq<Line> {
    seq![
        Line { level: Level::Info, said: Said::UnsafeFunction { name } },
        Line { level: Level::Warn, said: Said::MissingAnnotations { contracts } },
    ]
}

/// A copy of a list of strings.
pub fn copy_names(names: &Vec<String>) -> (r: Vec<String>)
    ensures
        texts(r@) == texts(names@),
{
    let mut r: Vec<String> = Vec::new();
    let mut i: usize = 0;
    while i < names.len()
        invariant
            i <= names@.len(),
            r@.len() == i,
            forall|j: int| 0 <= j < i ==> (#[trigger] r@[j])@ == names@[j]@,
        decreases names@.len() - i,
    {
        r.push(names[i].clone());
        i += 1;
    }
    assert(texts(r@) =~= texts(names@));
    r
}

/// The lines of the report on the safe function `name` with these results.
pub fn check_report(name: &String, check_results: &Vec<CheckResult>) -> (lines: Vec<ReportLine>)
    ensures
        lines_view(lines@) == check_lines(name@, results_view(check_results@)),
{
    let ghost findings = results_view(check_results@);
    let mut lines: Vec<ReportLine> = Vec::new();
    lines.push(
        ReportLine { level: Level::Info, message: Message::SafeFunction { name: name.clone() } },
    );
    let ghost head = lines_view(lines@);
    assert(head =~= seq![Line { level: Level::Info, said: Said::SafeFunction { name: name@ } }]);
    assert(head + findings_lines(findings, 0) =~= head);
    let mut k: usize = 0;
    while k < check_results.len()
        invariant
            findings == results_view(check_results@),
            k <= check_results@.len(),
            lines_view(lines@) == head + findings_lines(findings, k as nat),
        decreases check_results@.len() - k,
    {
        let result = &check_results[k];
        let ghost finding = findings[k as int];
        assert(finding == result@);
        let ghost base = lines_view(lines@);
        let level = if result.failed_contracts.len() > 0 {
            Level::Warn
        } else {
            Level::Info
        };
        let ghost prior = lines@;
        lines.push(
            ReportLine { level, message: Message::UnsafeApi { name: result.func_name.clone() } },
        );
        let ghost opened = lines_view(lines@);
        proof {
            assert(opened =~= base.push(
                Line { level: level_of(finding), said: Said::UnsafeApi { name: finding.name } },
            ));
            assert(opened + failed_lines(finding.failed, 0) =~= opened);
        }
        let mut i: usize = 0;
        while i < result.failed_contracts.len()
            invariant
                finding == result@,
                i <= result.failed_contracts@.len(),
                lines_view(lines@) == opened + failed_lines(finding.failed, i as nat),
            decreases result.failed_contracts@.len() - i,
        {
            let ghost before = lines@;
            let entry = &result.failed_contracts[i];
            let contracts = copy_names(&entry.1);
            lines.push(
                ReportLine {
                    level: Level::Warn,
                    message: Message::FailedArgument { index: entry.0, contracts },
                },
            );
            proof {
                let line = Line {
                    level: Level::Warn,
                    said: Said::FailedArgument {
                        index: finding.failed[i as int].0,
                        contracts: finding.failed[i as int].1,
                    },
                };
                assert(lines_view(lines@) =~= lines_view(before).push(line));
                assert(opened + failed_lines(finding.failed, i as nat).push(line) =~= (opened
                    + failed_lines(finding.failed, i as nat)).push(line));
            }
            i += 1;
        }
        proof {
            assert(finding_lines(finding) =~= seq![
                Line { level: level_of(finding), said: Said::UnsafeApi { name: finding.name } },
            ] + failed_lines(finding.failed, finding.failed.len()));
            assert(lines_view(lines@) =~= head + (findings_lines(findings, k as nat)
                + finding_lines(finding)));
        }
        k += 1;
    }
    lines
}

/// The lines of the report on the unsafe function `name`, which lacks these
/// annotations.
pub fn annotation_report(name: &String, annotation_results: &Vec<String>) -> (lines: Vec<
    ReportLine,
>)
    ensures
        lines_view(lines@) == annotation_lines(name@, texts(annotation_results@)),
{
    let mut lines: Vec<ReportLine> = Vec::new();
    lines.push(
        ReportLine { level: Level::Info, message: Message::UnsafeFunction { name: name.clone() } },
    );
    lines.push(
        ReportLine {
            level: Level::Warn,
            message: Message::MissingAnnotations { contracts: copy_names(annotation_results) },
        },
    );
    assert(lines_view(lines@) =~= annotation_lines(name@, texts(annotation_results@)));
    lines
}

/// What `Debug` writes for a string: the string between double quotes, with
/// the characters that cannot stand there as they are written as escapes.
pub uninterp spec fn quoted_text(s: Seq<char>) -> Seq<char>;

/// The string as `Debug` writes it. The body hands the string to `format!`
/// with `{:?}`, which calls `<String as core::fmt::Debug>::fmt`; what that
/// writes depends on the characters of the string alone, and the contract
/// gives it the name `quoted_text`. Nothing is proved of it.
#[verifier::external_body]
fn quoted(s: &String) -> (r: String)
    ensures
        r@ == quoted_text(s@),
{
    format!("{:?}", s)
}

/// The decimal digit `d`.
pub open spec fn digit_text(d: nat) -> Seq<char> {
    if d == 0 {
        "0"@
    } else if d == 1 {
        "1"@
    } else if d == 2 {
        "2"@
    } else if d == 3 {
        "3"@
    } else if d == 4 {
        "4"@
    } else if d == 5 {
        "5"@
    } else if d == 6 {
        "6"@
    } else if d == 7 {
        "7"@
    } else if d == 8 {
        "8"@
    } else {
        "9"@
    }
}

/// The number `n` in decimal digits, without leading zeros.
pub open spec fn decimal_text(n: nat) -> Seq<char>
    decreases n,
{
    if n < 10 {
        digit_text(n)
    } else {
        decimal_text(n / 10) + digit_text(n % 10)
    }
}

fn digit(d: usize) -> (r: &'static str)
    requires
        d < 10,
    ensures
        r@ == digit_text(d as nat),
{
    if d == 0 {
        "0"
    } else if d == 1 {
        "1"
    } else if d == 2 {
        "2"
    } else if d == 3 {
        "3"
    } else if d == 4 {
        "4"
    } else if d == 5 {
        "5"
    } else if d == 6 {
        "6"
    } else if d == 7 {
        "7"
    } else if d == 8 {
        "8"
    } else {
        "9"
    }
}

/// The number in decimal digits.
pub fn decimal(n: usize) -> (r: String)
    ensures
        r@ == decimal_text(n as nat),
    decreases n,
{
    if n < 10 {
        String::from_str(digit(n))
    } else {
        decimal(n / 10).concat(digit(n % 10))
    }
}

/// The first `k` names, each as `Debug` writes it, with a comma and a blank
/// between one and the next.
pub open spec fn listed_text(names: Seq<Seq<char>>, k: nat) -> Seq<char>
    decreases k,
{
    if k == 0 {
        Seq::empty()
    } else if k == 1 {
        quoted_text(names[0])
    } else {
        listed_text(names, (k - 1) as nat) + ", "@ + quoted_text(names[k - 1])
    }
}

/// The text of a message.
pub open spec fn text_of(said: Said) -> Seq<char> {
    match said {
        Said::SafeFunction { name } => "--------In safe function "@ + quoted_text(name)
            + "---------"@,
        Said::UnsafeApi { name } => "  Use unsafe api "@ + quoted_text(name) + "."@,
        Said::FailedArgument { index, contracts } => "      Argument "@ + decimal_text(
            index as nat,
        ) + "'s failed Sps: ["@ + listed_text(contracts, contracts.len()) + "]"@,
        Said::UnsafeFunction { name } => "--------In unsafe function "@ + quoted_text(name)
            + "---------"@,
        Said::MissingAnnotations { contracts } => "Lack safety annotations: {"@ + listed_text(
            contracts,
            contracts.len(),
        ) + "}."@,
    }
}

/// Appends the names, each as `Debug` writes it, with a comma and a blank
/// between one and the next.
fn append_names(text: &mut String, names: &Vec<String>)
    ensures
        final(text)@ == old(text)@ + listed_text(texts(names@), names@.len()),
{
    let ghost first = text@;
    let ghost said = texts(names@);
    let mut k: usize = 0;
    assert(first + listed_text(said, 0) =~= first);
    while k < names.len()
        invariant
            said == texts(names@),
            k <= names@.len(),
            text@ == first + listed_text(said, k as nat),
        decreases names@.len() - k,
    {
        let ghost before = text@;
        if k > 0 {
            text.append(", ");
        }
        let name = quoted(&names[k]);
        text.append(name.as_str());
        proof {
            assert(said[k as int] == names@[k as int]@);
            if k == 0 {
                assert(text@ =~= first + listed_text(said, 1));
            } else {
                assert(text@ =~= first + (listed_text(said, k as nat) + ", "@ + quoted_text(
                    said[k as int],
                )));
            }
        }
        k += 1;
    }
}

impl Message {
    /// The text of the message.
    pub fn text(&self) -> (r: String)
        ensures
            r@ == text_of(self@),
    {
        match self {
            Message::SafeFunction { name } => {
                let mut text = String::from_str("--------In safe function ");
                text.append(quoted(name).as_str());
                text.append("---------");
                text
            },
            Message::UnsafeApi { name } => {
                let mut text = String::from_str("  Use unsafe api ");
                text.append(quoted(name).as_str());
                text.append(".");
                text
            },
            Message::FailedArgument { index, contracts } => {
                let mut text = String::from_str("      Argument ");
                text.append(decimal(*index).as_str());
                text.append("'s failed Sps: [");
                append_names(&mut text, contracts);
                text.append("]");
                text
            },
            Message::UnsafeFunction { name } => {
                let mut text = String::from_str("--------In unsafe function ");
                text.append(quoted(name).as_str());
                text.append("---------");
                text
            },
            Message::MissingAnnotations { contracts } => {
                let mut text = String::from_str("Lack safety annotations: {");
                append_names(&mut text, contracts);
                text.append("}.");
                text
            },
        }
    }
}

} // verus!
