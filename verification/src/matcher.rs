use vstd::prelude::*;
use crate::errors::QError;
use crate::pattern::build_pattern;
use crate::pattern::spec_pattern;

verus! {

#[verifier::external_type_specification]
#[verifier::external_body]
pub struct ExRegex(regex::Regex);

#[verifier::external_type_specification]
#[verifier::external_body]
pub struct ExRegexError(regex::Error);

/// The pattern text a compiled regular expression was built from.
pub uninterp spec fn regex_pattern(re: regex::Regex) -> Seq<char>;

/// The texts of the successive non-overlapping matches that a pattern
/// finds in a line, leftmost first.
pub uninterp spec fn regex_matches(pattern: Seq<char>, line: Seq<char>) -> Seq<Seq<char>>;

/// Whether the engine accepts a pattern text: compilation is decided by
/// the text alone, under the engine's fixed default limits.
pub uninterp spec fn regex_accepts(pattern: Seq<char>) -> bool;

/// Relies on regex::Regex::new: whether it succeeds depends on the
/// pattern text alone, and on success the returned object is the
/// compiled form of exactly the pattern text it was given, the text
/// that Regex::as_str hands back.
#[verifier::external_body]
fn regex_new(pattern: &str) -> (r: Result<regex::Regex, regex::Error>)
    ensures
        (r is Ok) == regex_accepts(pattern@),
        r matches Ok(re) ==> regex_pattern(re) == pattern@,
{
    regex::Regex::new(pattern)
}

/// Relies on the Display impl of regex::Error for the human-readable
/// text of a compilation failure.
#[verifier::external_body]
fn regex_error_text(e: &regex::Error) -> String {
    e.to_string()
}

/// Relies on regex::Regex::find_iter and regex::Match::as_str: the
/// successive non-overlapping matches of the compiled pattern in the
/// line, leftmost first, each handed out as its matched text.
#[verifier::external_body]
fn regex_find_all(re: &regex::Regex, line: &str) -> (r: Vec<String>)
    ensures
        r.deep_view() == regex_matches(regex_pattern(*re), line@),
{
    re.find_iter(line).map(|m| m.as_str().to_string()).collect()
}

/// The one compiled alternation of all rule lines of a run. When no
/// rule line is non-empty there is no pattern at all, and the matcher
/// deterministically matches nothing.
pub struct CompiledMatcher {
    re: Option<regex::Regex>,
}

impl CompiledMatcher {
    /// The pattern text this matcher holds, if it holds one.
    pub closed spec fn spec_pattern_text(&self) -> Option<Seq<char>> {
        match self.re {
            Some(re) => Some(regex_pattern(re)),
            None => None,
        }
    }

    /// What matching a line yields: the match texts of the pattern in
    /// the line, in order, without the zero-length ones; nothing when
    /// there is no pattern.
    pub open spec fn spec_matches(&self, line: Seq<char>) -> Seq<Seq<char>> {
        match self.spec_pattern_text() {
            Some(p) => regex_matches(p, line).filter(|m: Seq<char>| m.len() > 0),
            None => Seq::<Seq<char>>::empty(),
        }
    }

    /// Builds the matcher of a run from the lines of all resolved rule
    /// files, in order. Every non-empty line becomes one escaped,
    /// capturing alternative; empty lines are dropped. When no line is
    /// non-empty the matcher holds no pattern and matches nothing. The
    /// engine's refusal of the combined pattern is not expected, since
    /// every alternative is escaped, but is surfaced as the pattern
    /// compilation error with the engine's message; compilation fails
    /// exactly when there is a pattern to build and the engine refuses
    /// its text, and succeeds on every other input.
    pub fn compile(lines: &Vec<String>, case_insensitive: bool) -> (r: Result<
        CompiledMatcher,
        QError,
    >)
        ensures
            match r {
                Ok(m) => m.spec_pattern_text() == spec_pattern(
                    lines.deep_view(),
                    case_insensitive,
                ),
                Err(e) => e is PatternCompile,
            },
            (r is Err) <==> (spec_pattern(lines.deep_view(), case_insensitive) matches Some(p)
                && !regex_accepts(p)),
    {
        match build_pattern(lines, case_insensitive) {
            None => Ok(CompiledMatcher { re: None }),
            Some(p) => match regex_new(p.as_str()) {
                Ok(re) => Ok(CompiledMatcher { re: Some(re) }),
                Err(e) => Err(QError::PatternCompile { message: regex_error_text(&e) }),
            },
        }
    }

    /// The ordered, non-empty matched substrings of one line.
    pub fn match_line(&self, line: &str) -> (r: Vec<String>)
        ensures
            r.deep_view() == self.spec_matches(line@),
    {
        match &self.re {
            None => {
                let r: Vec<String> = Vec::new();
                proof {
                    assert(r.deep_view() =~~= self.spec_matches(line@));
                }
                r
            },
            Some(re) => {
                let all = regex_find_all(re, line);
                let ghost av = all.deep_view();
                let ghost pred = |m: Seq<char>| m.len() > 0;
                let mut out: Vec<String> = Vec::new();
                let mut i: usize = 0;
                proof {
                    reveal(Seq::filter);
                    assert(av.take(0) =~= Seq::<Seq<char>>::empty());
                    assert(out.deep_view() =~~= av.take(0).filter(pred));
                }
                while i < all.len()
                    invariant
                        av == all.deep_view(),
                        all@.len() == av.len(),
                        0 <= i <= av.len(),
                        out.deep_view() == av.take(i as int).filter(
                            |m: Seq<char>| m.len() > 0,
                        ),
                    decreases all@.len() - i,
                {
                    let ghost pre = av.take(i as int);
                    proof {
                        reveal(Seq::filter);
                        assert(av.take(i + 1).drop_last() =~= pre);
                        assert(av.take(i + 1).last() == av[i as int]);
                    }
                    if !all[i].as_str().is_empty() {
                        let ghost old_out = out.deep_view();
                        out.push(all[i].clone());
                        proof {
                            assert(out.deep_view() =~~= old_out.push(av[i as int]));
                        }
                    }
                    i = i + 1;
                }
                proof {
                    assert(av.take(all@.len() as int) =~= av);
                    assert(self.spec_matches(line@) == av.filter(|m: Seq<char>| m.len() > 0));
                }
                out
            },
        }
    }
}

} // verus!
