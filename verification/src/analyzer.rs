//! The analyzer engine.
//!
//! A set of pattern strings is compiled into one matcher; a document's content
//! is split into lines and each line is tested against the whole set. A line
//! that matches at least one pattern yields exactly one finding, whatever the
//! number of patterns that matched it. Pattern compilation and matching are
//! done by the regex crate behind the trusted items below; the line splitting,
//! the scan loop and the shape of the result are verified here.

use crate::WatsonError;
use vstd::prelude::*;
use vstd::string::StrSliceExecFns;
use vstd::string::StringExecFns;

verus! {

/// A line of a document that matched at least one analyzer pattern, with its
/// 1-based position in the document.
#[derive(Debug, Clone)]
pub struct Finding {
    pub line_number: usize,
    pub line: String,
}

#[verifier::external_type_specification]
#[verifier::external_body]
pub struct ExRegexSet(regex::RegexSet);

/// Whether the regex compiler accepts a pattern string.
pub uninterp spec fn regex_valid(pattern: Seq<char>) -> bool;

/// Whether a pattern matches somewhere in a line.
pub uninterp spec fn regex_matches(pattern: Seq<char>, line: Seq<char>) -> bool;

/// The patterns a compiled set was built from, in order.
pub uninterp spec fn regex_set_patterns(s: regex::RegexSet) -> Seq<Seq<char>>;

/// Whether a whole pattern set compiles into one matcher. Building the set
/// is deterministic in the patterns, but it compiles them into one program
/// under a shared size budget, so it can fail even when every pattern alone
/// is valid; this names that outcome.
pub uninterp spec fn regex_set_compiles(patterns: Seq<Seq<char>>) -> bool;

/// Relies on regex::Regex::new: it returns Ok exactly when the pattern
/// alone is a valid regular expression. A set of individually valid patterns
/// may still fail to compile as one matcher (see regex_set_compiles).
#[verifier::external_body]
pub(crate) fn pattern_compiles(pattern: &str) -> (r: bool)
    ensures
        r == regex_valid(pattern@),
{
    regex::Regex::new(pattern).is_ok()
}

/// Relies on regex::RegexSet::new: its outcome depends on the patterns alone
/// (named regex_set_compiles), a built set holds the given patterns in
/// order, and an empty set always builds. Building the set shares no outcome
/// with compiling each pattern alone: the set is compiled as one program,
/// without capture states, under one size budget.
#[verifier::external_body]
fn regex_set_new(patterns: &Vec<String>) -> (r: Option<regex::RegexSet>)
    ensures
        r is Some <==> regex_set_compiles(patterns_of(patterns@)),
        r is Some ==> regex_set_patterns(r->0) == patterns_of(patterns@),
        patterns@.len() == 0 ==> r is Some,
{
    match regex::RegexSet::new(patterns.iter()) {
        Ok(s) => Some(s),
        Err(_) => None,
    }
}

/// Whether at least one pattern of the set matches the line.
pub open spec fn line_matches(patterns: Seq<Seq<char>>, line: Seq<char>) -> bool {
    exists|i: int| 0 <= i < patterns.len() && regex_matches(#[trigger] patterns[i], line)
}

/// Relies on regex::RegexSet::is_match: it returns true exactly when at least
/// one pattern of the set matches somewhere in the line.
#[verifier::external_body]
fn regex_set_is_match(s: &regex::RegexSet, line: &str) -> (r: bool)
    ensures
        r == line_matches(regex_set_patterns(*s), line@),
        r ==> exists|i: int|
            0 <= i < regex_set_patterns(*s).len() && regex_matches(
                #[trigger] regex_set_patterns(*s)[i],
                line@,
            ),
{
    s.is_match(line)
}

/// The lines of a text, split on the newline character, which belongs to no
/// line. Empty text is one empty line; a trailing newline yields one
/// additional empty final line.
pub open spec fn spec_lines(s: Seq<char>) -> Seq<Seq<char>>
    decreases s.len(),
{
    if s.len() == 0 {
        seq![Seq::<char>::empty()]
    } else {
        let pre = spec_lines(s.drop_last());
        if s.last() == '\n' {
            pre.push(Seq::<char>::empty())
        } else {
            pre.drop_last().push(pre.last().push(s.last()))
        }
    }
}

/// The findings over a sequence of lines: one entry per matching line, in
/// order, holding the line's 1-based position and its text.
pub open spec fn spec_findings(patterns: Seq<Seq<char>>, lines: Seq<Seq<char>>) -> Seq<
    (int, Seq<char>),
>
    decreases lines.len(),
{
    if lines.len() == 0 {
        Seq::empty()
    } else {
        let pre = spec_findings(patterns, lines.drop_last());
        if line_matches(patterns, lines.last()) {
            pre.push((lines.len() as int, lines.last()))
        } else {
            pre
        }
    }
}

/// The model of a findings vector: positions and line texts.
pub open spec fn findings_view(v: Seq<Finding>) -> Seq<(int, Seq<char>)> {
    v.map_values(|f: Finding| (f.line_number as int, f.line@))
}

/// The model of a pattern vector: the patterns as character sequences.
pub open spec fn patterns_of(v: Seq<String>) -> Seq<Seq<char>> {
    v.map_values(|p: String| p@)
}

proof fn lemma_findings_sound_lines(patterns: Seq<Seq<char>>, lines: Seq<Seq<char>>)
    ensures
        forall|k: int|
            0 <= k < spec_findings(patterns, lines).len() ==> {
                let f = #[trigger] spec_findings(patterns, lines)[k];
                1 <= f.0 <= lines.len() && f.1 == lines[f.0 - 1]
            },
        forall|k1: int, k2: int|
            0 <= k1 < k2 < spec_findings(patterns, lines).len()
                ==> #[trigger] spec_findings(patterns, lines)[k1].0 < #[trigger] spec_findings(
                patterns,
                lines,
            )[k2].0,
    decreases lines.len(),
{
    if lines.len() > 0 {
        lemma_findings_sound_lines(patterns, lines.drop_last());
        let pre = spec_findings(patterns, lines.drop_last());
        let cur = spec_findings(patterns, lines);
        assert(forall|j: int|
            0 <= j < lines.len() - 1 ==> lines.drop_last()[j] == #[trigger] lines[j]);
        if line_matches(patterns, lines.last()) {
            assert(cur == pre.push((lines.len() as int, lines.last())));
            assert(forall|k: int| 0 <= k < pre.len() ==> #[trigger] cur[k] == pre[k]);
            assert(cur[cur.len() - 1] == (lines.len() as int, lines.last()));
            assert(cur[cur.len() - 1].1 == lines[lines.len() - 1]);
        } else {
            assert(cur == pre);
        }
    }
}

/// Law: every finding of a scan points into the scanned content — its line
/// number is between 1 and the number of lines, and its text is exactly the
/// line of the content at that position — and the line numbers are strictly
/// increasing. This holds for any content and any pattern set.
pub proof fn lemma_findings_sound(patterns: Seq<Seq<char>>, content: Seq<char>)
    ensures
        forall|k: int|
            0 <= k < spec_findings(patterns, spec_lines(content)).len() ==> {
                let f = #[trigger] spec_findings(patterns, spec_lines(content))[k];
                1 <= f.0 <= spec_lines(content).len() && f.1 == spec_lines(content)[f.0 - 1]
            },
        forall|k1: int, k2: int|
            0 <= k1 < k2 < spec_findings(patterns, spec_lines(content)).len()
                ==> #[trigger] spec_findings(patterns, spec_lines(content))[k1].0
                < #[trigger] spec_findings(patterns, spec_lines(content))[k2].0,
{
    lemma_findings_sound_lines(patterns, spec_lines(content));
}

proof fn lemma_empty_patterns_no_findings_lines(patterns: Seq<Seq<char>>, lines: Seq<Seq<char>>)
    requires
        patterns.len() == 0,
    ensures
        spec_findings(patterns, lines) =~= Seq::<(int, Seq<char>)>::empty(),
    decreases lines.len(),
{
    if lines.len() > 0 {
        lemma_empty_patterns_no_findings_lines(patterns, lines.drop_last());
    }
}

/// Law: scanning with an empty pattern set yields an empty finding sequence,
/// for any content.
pub proof fn lemma_empty_patterns_no_findings(patterns: Seq<Seq<char>>, content: Seq<char>)
    requires
        patterns.len() == 0,
    ensures
        spec_findings(patterns, spec_lines(content)) =~= Seq::<(int, Seq<char>)>::empty(),
{
    lemma_empty_patterns_no_findings_lines(patterns, spec_lines(content));
}

/// Split a text into its lines.
pub fn split_lines(content: &str) -> (r: Vec<String>)
    ensures
        r@.map_values(|s: String| s@) == spec_lines(content@),
{
    let n = content.unicode_len();
    let mut r: Vec<String> = Vec::new();
    let mut start: usize = 0;
    let mut i: usize = 0;
    proof {
        assert(content@.take(0) =~= Seq::<char>::empty());
        assert(spec_lines(Seq::<char>::empty()) == seq![Seq::<char>::empty()]);
        assert(r@.map_values(|s2: String| s2@) =~= Seq::<Seq<char>>::empty());
        assert(r@.map_values(|s2: String| s2@).push(content@.subrange(0, 0)) =~= seq![
            Seq::<char>::empty(),
        ]);
    }
    while i < n
        invariant
            0 <= start <= i <= n,
            n == content@.len(),
            r@.map_values(|s: String| s@).push(content@.subrange(start as int, i as int))
                =~= spec_lines(content@.take(i as int)),
        decreases n - i,
    {
        let c = content.get_char(i);
        proof {
            let s = content@;
            assert(s.take(i as int + 1).drop_last() =~= s.take(i as int));
            assert(s.take(i as int + 1).last() == s[i as int]);
        }
        if c == '\n' {
            let ghost prev = r@.map_values(|s2: String| s2@);
            let line = content.substring_char(start, i);
            let owned = String::from_str(line);
            r.push(owned);
            proof {
                let s = content@;
                let m = r@.map_values(|s2: String| s2@);
                assert(m =~= prev.push(s.subrange(start as int, i as int)));
                assert(s.subrange(i as int + 1, i as int + 1) =~= Seq::<char>::empty());
                assert(m.push(Seq::<char>::empty()) =~= spec_lines(s.take(i as int)).push(
                    Seq::<char>::empty(),
                ));
                assert(spec_lines(s.take(i as int + 1)) == spec_lines(s.take(i as int)).push(
                    Seq::<char>::empty(),
                ));
            }
            start = i + 1;
        } else {
            proof {
                let s = content@;
                let pre = spec_lines(s.take(i as int));
                let m = r@.map_values(|s2: String| s2@);
                assert(pre.drop_last() =~= m);
                assert(pre.last() == s.subrange(start as int, i as int));
                assert(s.subrange(start as int, i as int).push(s[i as int]) =~= s.subrange(
                    start as int,
                    i as int + 1,
                ));
                assert(spec_lines(s.take(i as int + 1)) == pre.drop_last().push(
                    pre.last().push(s[i as int]),
                ));
                assert(m.push(s.subrange(start as int, i as int + 1)) =~= spec_lines(
                    s.take(i as int + 1),
                ));
            }
        }
        i = i + 1;
    }
    let ghost prev = r@.map_values(|s2: String| s2@);
    let line = content.substring_char(start, n);
    let owned = String::from_str(line);
    r.push(owned);
    proof {
        assert(content@.take(n as int) =~= content@);
        assert(r@.map_values(|s2: String| s2@) =~= prev.push(
            content@.subrange(start as int, n as int),
        ));
    }
    r
}

/// A compiled set of analyzer patterns.
pub struct Matcher {
    compiled: regex::RegexSet,
}

impl Matcher {
    /// The patterns this matcher was compiled from, in order.
    pub closed spec fn patterns(self) -> Seq<Seq<char>> {
        regex_set_patterns(self.compiled)
    }
}

/// Compile a pattern set into one matcher. Any failure is InvalidPattern and
/// rejects the whole set; there is no partial acceptance. The empty set
/// always compiles.
pub fn compile(patterns: &Vec<String>) -> (r: Result<Matcher, WatsonError>)
    ensures
        r is Ok <==> regex_set_compiles(patterns_of(patterns@)),
        r is Ok ==> (r->Ok_0).patterns() == patterns_of(patterns@),
        r is Err ==> r->Err_0 == WatsonError::InvalidPattern,
        patterns@.len() == 0 ==> r is Ok,
{
    match regex_set_new(patterns) {
        Some(compiled) => Ok(Matcher { compiled }),
        None => Err(WatsonError::InvalidPattern),
    }
}

/// Scan content line by line against a compiled matcher: one finding per
/// matching line, with its 1-based line number and its exact text.
pub fn scan(content: &str, matcher: &Matcher) -> (r: Vec<Finding>)
    ensures
        findings_view(r@) == spec_findings(matcher.patterns(), spec_lines(content@)),
{
    let lines = split_lines(content);
    let ghost lv = lines@.map_values(|s: String| s@);
    let mut r: Vec<Finding> = Vec::new();
    let mut i: usize = 0;
    while i < lines.len()
        invariant
            0 <= i <= lines.len(),
            lv == lines@.map_values(|s: String| s@),
            findings_view(r@) =~= spec_findings(matcher.patterns(), lv.take(i as int)),
        decreases lines.len() - i,
    {
        proof {
            assert(lv.take(i as int + 1).drop_last() =~= lv.take(i as int));
            assert(lv.take(i as int + 1).last() == lv[i as int]);
        }
        let matched = regex_set_is_match(&matcher.compiled, lines[i].as_str());
        if matched {
            let f = Finding { line_number: i + 1, line: lines[i].clone() };
            r.push(f);
            proof {
                assert(findings_view(r@) =~= findings_view(r@.drop_last()).push(
                    ((i + 1) as int, lv[i as int]),
                ));
            }
        }
        i = i + 1;
    }
    proof {
        assert(lv.take(lines@.len() as int) =~= lv);
    }
    r
}

/// Compile the current pattern set and scan a document's content with it.
/// Succeeds exactly when the set compiles as a whole; any failure is
/// InvalidPattern. With no patterns the scan always succeeds, with no
/// findings.
pub fn analyze(file: &str, analyzers: &Vec<String>) -> (r: Result<Vec<Finding>, WatsonError>)
    ensures
        r is Ok <==> regex_set_compiles(patterns_of(analyzers@)),
        r is Ok ==> findings_view((r->Ok_0)@) == spec_findings(
            patterns_of(analyzers@),
            spec_lines(file@),
        ),
        r is Err ==> r->Err_0 == WatsonError::InvalidPattern,
        analyzers@.len() == 0 ==> r is Ok && (r->Ok_0)@.len() == 0,
{
    match compile(analyzers) {
        Ok(m) => {
            let findings = scan(file, &m);
            proof {
                if analyzers@.len() == 0 {
                    lemma_empty_patterns_no_findings_lines(
                        patterns_of(analyzers@),
                        spec_lines(file@),
                    );
                }
            }
            Ok(findings)
        },
        Err(e) => Err(e),
    }
}

} // verus!
