//! Reading UnrealBuildTool output: compiler errors and warnings in MSVC
//! format (`file(line,col): error C1234: message`), the files compiled, and
//! the reported build time.

use vstd::prelude::*;
use vstd::string::StringExecFns;
use crate::util::pattern::{
    compile, compiled_from, compiled_source, group_text, held_source, match_groups, match_opt, Pattern,
};
use crate::util::scan::{has_text, parse_usize, parsed_usize, split_words, text_contains, words};
use crate::util::seqs::{joined, lemma_somes_push, somes};
use crate::util::text::{decimal, split_lines, str_eq, text_lines, u64_to_decimal};

verus! {

/// An MSVC error line: file, line, column, code and message.
pub const ERROR_PATTERN: &'static str = r"(?P<file>[^(]+)\((?P<line>\d+),(?P<col>\d+)\):\s*error\s+(?P<code>\w+):\s*(?P<msg>.*)";

/// An MSVC warning line: file, line, column, code and message.
pub const WARNING_PATTERN: &'static str = r"(?P<file>[^(]+)\((?P<line>\d+),(?P<col>\d+)\):\s*warning\s+(?P<code>\w+):\s*(?P<msg>.*)";

/// A line announcing that a source or header file is compiled or parsed.
pub const COMPILED_FILE_PATTERN: &'static str = r"^\s*(?:Compiling|Parsing)\s+(?P<file>.*\.(?:cpp|h))";

/// A diagnostic as values: file, line, column, message and code.
pub type DiagnosticView = (Seq<char>, usize, usize, Seq<char>, Option<Seq<char>>);

/// The diagnostic that the groups of an error or warning match describe:
/// the file (group 1), the line and column (groups 2 and 3, read as
/// numbers), the message (group 5) and the code (group 4).  There is none
/// when a group is missing or a number does not read.
pub open spec fn diagnostic_of(g: Seq<Option<Seq<char>>>) -> Option<DiagnosticView> {
    if g.len() > 5 && g[1] is Some && g[2] is Some && g[3] is Some && g[4] is Some && g[5] is Some
        && parsed_usize(g[2]->0) is Some && parsed_usize(g[3]->0) is Some {
        Some((g[1]->0, parsed_usize(g[2]->0)->0, parsed_usize(g[3]->0)->0, g[5]->0, Some(g[4]->0)))
    } else {
        None
    }
}

/// The diagnostic of a match, if there is a match.
pub open spec fn diagnostic_in(m: Option<Seq<Option<Seq<char>>>>) -> Option<DiagnosticView> {
    match m {
        Some(g) => diagnostic_of(g),
        None => None,
    }
}

/// Group 1 of a match, if there is a match and the group took part in it.
pub open spec fn first_group_in(m: Option<Seq<Option<Seq<char>>>>) -> Option<Seq<char>> {
    match m {
        Some(g) => if g.len() > 1 { g[1] } else { None },
        None => None,
    }
}

/// The error a line reports.
pub open spec fn error_on(line: Seq<char>) -> Option<DiagnosticView> {
    diagnostic_in(match_groups(ERROR_PATTERN@, line))
}

/// The warning a line reports.
pub open spec fn warning_on(line: Seq<char>) -> Option<DiagnosticView> {
    diagnostic_in(match_groups(WARNING_PATTERN@, line))
}

/// The file a line reports as compiled.
pub open spec fn compiled_file_on(line: Seq<char>) -> Option<Seq<char>> {
    first_group_in(match_groups(COMPILED_FILE_PATTERN@, line))
}

/// The word after the first word `time:` from index `k` on that has a word
/// after it.
pub open spec fn word_after_time(ws: Seq<Seq<char>>, k: int) -> Option<Seq<char>>
    decreases ws.len() - k,
{
    if k < 0 || k >= ws.len() {
        None
    } else if ws[k] == "time:"@ && k + 1 < ws.len() {
        Some(ws[k + 1])
    } else {
        word_after_time(ws, k + 1)
    }
}

/// The build time a line reports, as text: on a `Total build time:` line,
/// the word after the first word `time:`.
pub open spec fn build_time_on(line: Seq<char>) -> Option<Seq<char>> {
    if has_text(line, "Total build time:"@) {
        word_after_time(words(line), 0)
    } else {
        None
    }
}

/// A compiler error from UBT output.
#[derive(Debug, Clone)]
pub struct CompileError {
    pub file: String,
    pub line: usize,
    pub column: usize,
    pub message: String,
    pub error_code: Option<String>,
}

impl DeepView for CompileError {
    type V = DiagnosticView;

    open spec fn deep_view(&self) -> DiagnosticView {
        (self.file@, self.line, self.column, self.message@, self.error_code.deep_view())
    }
}

/// A compiler warning from UBT output.
#[derive(Debug, Clone)]
pub struct CompileWarning {
    pub file: String,
    pub line: usize,
    pub column: usize,
    pub message: String,
    pub warning_code: Option<String>,
}

impl DeepView for CompileWarning {
    type V = DiagnosticView;

    open spec fn deep_view(&self) -> DiagnosticView {
        (self.file@, self.line, self.column, self.message@, self.warning_code.deep_view())
    }
}

/// The fields of the diagnostic that the groups describe: file, line,
/// column, message, code.
fn diagnostic_fields(groups: &Vec<Option<String>>) -> (res: Option<(String, usize, usize, String, String)>)
    ensures
        match res {
            Some(f) => diagnostic_of(groups.deep_view()) == Some(
                (f.0@, f.1, f.2, f.3@, Some(f.4@)),
            ),
            None => diagnostic_of(groups.deep_view()) is None,
        },
{
    let ghost g = groups.deep_view();
    if groups.len() <= 5 {
        return None;
    }
    let file = group_text(groups, 1);
    let line = group_text(groups, 2);
    let col = group_text(groups, 3);
    let code = group_text(groups, 4);
    let msg = group_text(groups, 5);
    match (file, line, col, code, msg) {
        (Some(file), Some(line), Some(col), Some(code), Some(msg)) => {
            let l = parse_usize(line.as_str());
            let c = parse_usize(col.as_str());
            match (l, c) {
                (Some(l), Some(c)) => Some((file, l, c, msg, code)),
                _ => None,
            }
        },
        _ => None,
    }
}

impl CompileError {
    /// The error that the groups of a match of `ERROR_PATTERN` describe.
    pub fn from_groups(groups: &Vec<Option<String>>) -> (res: Option<CompileError>)
        ensures
            res.deep_view() == diagnostic_of(groups.deep_view()),
    {
        match diagnostic_fields(groups) {
            Some((file, line, column, message, code)) => Some(
                CompileError { file, line, column, message, error_code: Some(code) },
            ),
            None => None,
        }
    }
}

impl CompileWarning {
    /// The warning that the groups of a match of `WARNING_PATTERN` describe.
    pub fn from_groups(groups: &Vec<Option<String>>) -> (res: Option<CompileWarning>)
        ensures
            res.deep_view() == diagnostic_of(groups.deep_view()),
    {
        match diagnostic_fields(groups) {
            Some((file, line, column, message, code)) => Some(
                CompileWarning { file, line, column, message, warning_code: Some(code) },
            ),
            None => None,
        }
    }
}

/// The word after the first word `time:` that has a word after it.
pub open spec fn time_word(line: Seq<char>) -> Option<Seq<char>> {
    word_after_time(words(line), 0)
}

/// The first `n` elements, or all of them when there are fewer.
pub open spec fn first_n<A>(s: Seq<A>, n: int) -> Seq<A> {
    if s.len() < n { s } else { s.take(n) }
}

/// How an error is listed in a summary: `  file(line): message`.
pub open spec fn summary_line(e: DiagnosticView) -> Seq<char> {
    "  "@ + e.0 + "("@ + decimal(e.1 as nat) + "): "@ + e.3
}

/// The summary of a list of errors: `No errors`, or their number and the
/// first five of them, one per line.
pub open spec fn error_summary(es: Seq<DiagnosticView>) -> Seq<char> {
    if es.len() == 0 {
        "No errors"@
    } else {
        decimal(es.len()) + " error(s) found:\n"@ + joined(
            first_n(es, 5).map_values(|e: DiagnosticView| summary_line(e)),
            "\n"@,
        )
    }
}

/// Counts and build times read from UBT output.
#[derive(Debug, Clone)]
pub struct BuildStatistics {
    pub total_files: usize,
    pub compiled_files: usize,
    pub errors: usize,
    pub warnings: usize,
    /// The text after `time:` on each `Total build time:` line, in order;
    /// the build's duration in seconds is the last of them that reads as a
    /// number.
    pub build_times: Vec<String>,
}

/// What UBT output reports.
#[derive(Debug, Clone)]
pub struct ParsedOutput {
    pub errors: Vec<CompileError>,
    pub warnings: Vec<CompileWarning>,
    pub compiled_files: Vec<String>,
    pub statistics: BuildStatistics,
}

/// Reads UBT output.
pub struct UBTOutputParser {
    error_re: Option<Pattern>,
    warning_re: Option<Pattern>,
    file_re: Option<Pattern>,
}

impl UBTOutputParser {
    /// Each expression is compiled from its pattern.
    #[verifier::type_invariant]
    spec fn holds_patterns(self) -> bool {
        &&& compiled_from(self.error_re, ERROR_PATTERN@)
        &&& compiled_from(self.warning_re, WARNING_PATTERN@)
        &&& compiled_from(self.file_re, COMPILED_FILE_PATTERN@)
    }

    /// A parser with its three expressions compiled.
    pub fn new() -> (res: Self)
        ensures
            res@ == (
                compiled_source(ERROR_PATTERN@),
                compiled_source(WARNING_PATTERN@),
                compiled_source(COMPILED_FILE_PATTERN@),
            ),
    {
        UBTOutputParser {
            error_re: compile(ERROR_PATTERN),
            warning_re: compile(WARNING_PATTERN),
            file_re: compile(COMPILED_FILE_PATTERN),
        }
    }

    /// The error a line reports.
    pub fn parse_error(&self, line: &str) -> (res: Option<CompileError>)
        ensures
            res.deep_view() == error_on(line@),
    {
        proof {
            use_type_invariant(self);
        }
        match match_opt(&self.error_re, line) {
            Some(groups) => CompileError::from_groups(&groups),
            None => None,
        }
    }

    /// The warning a line reports.
    pub fn parse_warning(&self, line: &str) -> (res: Option<CompileWarning>)
        ensures
            res.deep_view() == warning_on(line@),
    {
        proof {
            use_type_invariant(self);
        }
        match match_opt(&self.warning_re, line) {
            Some(groups) => CompileWarning::from_groups(&groups),
            None => None,
        }
    }

    /// The file a line reports as compiled.
    pub fn parse_compiled_file(&self, line: &str) -> (res: Option<String>)
        ensures
            res.deep_view() == compiled_file_on(line@),
    {
        proof {
            use_type_invariant(self);
        }
        match match_opt(&self.file_re, line) {
            Some(groups) => group_text(&groups, 1),
            None => None,
        }
    }

    /// The word after the first word `time:` that has a word after it
    /// (`Total build time: 123.45 seconds` gives `123.45`).
    pub fn build_time_text(line: &str) -> (res: Option<String>)
        ensures
            res.deep_view() == time_word(line@),
    {
        let ws = split_words(line);
        let ghost w = words(line@);
        let mut k: usize = 0;
        while k < ws.len()
            invariant
                ws.deep_view() == w,
                w == words(line@),
                k <= ws.len(),
                word_after_time(w, 0) == word_after_time(w, k as int),
            decreases ws.len() - k,
        {
            if str_eq(ws[k].as_str(), "time:") && k + 1 < ws.len() {
                return Some(String::from_str(ws[k + 1].as_str()));
            }
            k = k + 1;
        }
        None
    }

    /// Reads UBT output line by line: the errors, warnings, compiled files
    /// and build times reported, and their counts.
    pub fn parse(&self, output: &str) -> (res: ParsedOutput)
        ensures
            res.errors.deep_view() == somes(
                text_lines(output@).map_values(|l: Seq<char>| error_on(l)),
            ),
            res.warnings.deep_view() == somes(
                text_lines(output@).map_values(|l: Seq<char>| warning_on(l)),
            ),
            res.compiled_files.deep_view() == somes(
                text_lines(output@).map_values(|l: Seq<char>| compiled_file_on(l)),
            ),
            res.statistics.build_times.deep_view() == somes(
                text_lines(output@).map_values(|l: Seq<char>| build_time_on(l)),
            ),
            res.statistics.total_files == 0,
            res.statistics.errors == res.errors.len(),
            res.statistics.warnings == res.warnings.len(),
            res.statistics.compiled_files == res.compiled_files.len(),
    {
        let lines = split_lines(output);
        let ghost ls = text_lines(output@);
        let ghost fe = |l: Seq<char>| error_on(l);
        let ghost fw = |l: Seq<char>| warning_on(l);
        let ghost ff = |l: Seq<char>| compiled_file_on(l);
        let ghost ft = |l: Seq<char>| build_time_on(l);
        let mut errors: Vec<CompileError> = Vec::new();
        let mut warnings: Vec<CompileWarning> = Vec::new();
        let mut files: Vec<String> = Vec::new();
        let mut times: Vec<String> = Vec::new();
        let mut i: usize = 0;
        while i < lines.len()
            invariant
                lines.deep_view() == ls,
                i <= lines.len(),
                fe == (|l: Seq<char>| error_on(l)),
                fw == (|l: Seq<char>| warning_on(l)),
                ff == (|l: Seq<char>| compiled_file_on(l)),
                ft == (|l: Seq<char>| build_time_on(l)),
                errors.deep_view() == somes(ls.take(i as int).map_values(fe)),
                warnings.deep_view() == somes(ls.take(i as int).map_values(fw)),
                files.deep_view() == somes(ls.take(i as int).map_values(ff)),
                times.deep_view() == somes(ls.take(i as int).map_values(ft)),
            decreases lines.len() - i,
        {
            let line = lines[i].as_str();
            let e = self.parse_error(line);
            let w = self.parse_warning(line);
            let f = self.parse_compiled_file(line);
            let t = if text_contains(line, "Total build time:") {
                Self::build_time_text(line)
            } else {
                None
            };
            proof {
                assert(ls.take(i + 1).map_values(fe) =~= ls.take(i as int).map_values(fe).push(fe(ls[i as int])));
                assert(ls.take(i + 1).map_values(fw) =~= ls.take(i as int).map_values(fw).push(fw(ls[i as int])));
                assert(ls.take(i + 1).map_values(ff) =~= ls.take(i as int).map_values(ff).push(ff(ls[i as int])));
                assert(ls.take(i + 1).map_values(ft) =~= ls.take(i as int).map_values(ft).push(ft(ls[i as int])));
                lemma_somes_push(ls.take(i as int).map_values(fe), fe(ls[i as int]));
                lemma_somes_push(ls.take(i as int).map_values(fw), fw(ls[i as int]));
                lemma_somes_push(ls.take(i as int).map_values(ff), ff(ls[i as int]));
                lemma_somes_push(ls.take(i as int).map_values(ft), ft(ls[i as int]));
            }
            match e {
                Some(e) => {
                    let ghost before = errors.deep_view();
                    errors.push(e);
                    proof {
                        assert(errors.deep_view() =~= before.push(e.deep_view()));
                    }
                },
                None => {},
            }
            match w {
                Some(w) => {
                    let ghost before = warnings.deep_view();
                    warnings.push(w);
                    proof {
                        assert(warnings.deep_view() =~= before.push(w.deep_view()));
                    }
                },
                None => {},
            }
            match f {
                Some(f) => {
                    let ghost before = files.deep_view();
                    files.push(f);
                    proof {
                        assert(files.deep_view() =~= before.push(f@));
                    }
                },
                None => {},
            }
            match t {
                Some(t) => {
                    let ghost before = times.deep_view();
                    times.push(t);
                    proof {
                        assert(times.deep_view() =~= before.push(t@));
                    }
                },
                None => {},
            }
            i = i + 1;
        }
        proof {
            assert(ls.take(i as int) =~= ls);
        }
        let statistics = BuildStatistics {
            total_files: 0,
            compiled_files: files.len(),
            errors: errors.len(),
            warnings: warnings.len(),
            build_times: times,
        };
        ParsedOutput { errors, warnings, compiled_files: files, statistics }
    }

    /// Whether the output reports a successful build: it says
    /// `BUILD SUCCESSFUL`, or it says `Completed` and never `error`.
    pub fn is_success(&self, output: &str) -> (res: bool)
        ensures
            res == (has_text(output@, "BUILD SUCCESSFUL"@) || (has_text(output@, "Completed"@)
                && !has_text(output@, "error"@))),
    {
        text_contains(output, "BUILD SUCCESSFUL") || (text_contains(output, "Completed")
            && !text_contains(output, "error"))
    }

    /// A summary of errors for display: `No errors`, or their number
    /// followed by the first five, one per line as `  file(line): message`.
    pub fn get_error_summary(&self, errors: &[CompileError]) -> (res: String)
        ensures
            res@ == error_summary(errors@.map_values(|e: CompileError| e.deep_view())),
    {
        let ghost es = errors@.map_values(|e: CompileError| e.deep_view());
        let ghost f = |e: DiagnosticView| summary_line(e);
        let n = errors.len();
        if n == 0 {
            return String::from_str("No errors");
        }
        let mut s = u64_to_decimal(n as u64);
        s.append(" error(s) found:\n");
        let ghost head = s@;
        let m: usize = if n < 5 { n } else { 5 };
        proof {
            assert(first_n(es, 5) =~= es.take(m as int));
        }
        let mut i: usize = 0;
        while i < m
            invariant
                es == errors@.map_values(|e: CompileError| e.deep_view()),
                f == (|e: DiagnosticView| summary_line(e)),
                m <= errors@.len(),
                i <= m,
                head == decimal(errors@.len() as nat) + " error(s) found:\n"@,
                s@ == head + joined(es.take(i as int).map_values(f), "\n"@),
            decreases m - i,
        {
            let ghost before = s@;
            let ghost parts = es.take(i as int).map_values(f);
            if i > 0 {
                s.append("\n");
            }
            let e = &errors[i];
            let d = u64_to_decimal(e.line as u64);
            s.append("  ");
            s.append(e.file.as_str());
            s.append("(");
            s.append(d.as_str());
            s.append("): ");
            s.append(e.message.as_str());
            proof {
                let next = es.take(i + 1).map_values(f);
                assert(next =~= parts.push(summary_line(es[i as int])));
                assert(next.drop_last() =~= parts);
                assert(es[i as int] == errors@[i as int].deep_view());
                if i == 0 {
                    assert(joined(parts, "\n"@) =~= Seq::<char>::empty());
                    assert(s@ =~= head + joined(next, "\n"@));
                } else {
                    assert(s@ =~= head + joined(next, "\n"@));
                }
            }
            i = i + 1;
        }
        proof {
            assert(es.take(m as int).map_values(f) =~= first_n(es, 5).map_values(f));
        }
        s
    }
}

impl View for UBTOutputParser {
    /// The texts of the error, warning and compiled-file expressions held.
    type V = (Option<Seq<char>>, Option<Seq<char>>, Option<Seq<char>>);

    closed spec fn view(&self) -> Self::V {
        (held_source(self.error_re), held_source(self.warning_re), held_source(self.file_re))
    }
}

impl Default for UBTOutputParser {
    fn default() -> (res: Self)
        ensures
            res@ == (
                compiled_source(ERROR_PATTERN@),
                compiled_source(WARNING_PATTERN@),
                compiled_source(COMPILED_FILE_PATTERN@),
            ),
    {
        Self::new()
    }
}

} // verus!
