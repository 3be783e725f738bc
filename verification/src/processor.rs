use vstd::prelude::*;
use vstd::string::StringExecFns;
use crate::matcher::CompiledMatcher;
use crate::pattern::spec_pattern;

verus! {

/// The characters the input lines are trimmed of: the white-space
/// characters of Unicode, as `str::trim` removes them.
pub open spec fn spec_is_space(c: char) -> bool {
    c == ' ' || (9 <= c as int && c as int <= 13) || c as int == 0x85 || c as int == 0xA0
        || c as int == 0x1680 || (0x2000 <= c as int && c as int <= 0x200A) || c as int == 0x2028
        || c as int == 0x2029 || c as int == 0x202F || c as int == 0x205F || c as int == 0x3000
}

/// A sequence with its leading white space dropped.
pub open spec fn spec_trim_start(s: Seq<char>) -> Seq<char>
    decreases s.len(),
{
    if s.len() > 0 && spec_is_space(s[0]) {
        spec_trim_start(s.skip(1))
    } else {
        s
    }
}

/// A sequence with its trailing white space dropped.
pub open spec fn spec_trim_end(s: Seq<char>) -> Seq<char>
    decreases s.len(),
{
    if s.len() > 0 && spec_is_space(s.last()) {
        spec_trim_end(s.drop_last())
    } else {
        s
    }
}

/// A line as it is matched: stripped of leading and trailing white space.
pub open spec fn spec_trim(s: Seq<char>) -> Seq<char> {
    spec_trim_end(spec_trim_start(s))
}

/// Whether a character is trimmed off the ends of an input line.
fn is_space(c: char) -> (r: bool)
    ensures
        r == spec_is_space(c),
{
    c == ' ' || ('\u{9}' <= c && c <= '\u{D}') || c == '\u{85}' || c == '\u{A0}' || c == '\u{1680}'
        || ('\u{2000}' <= c && c <= '\u{200A}') || c == '\u{2028}' || c == '\u{2029}'
        || c == '\u{202F}' || c == '\u{205F}' || c == '\u{3000}'
}

/// Dropping the leading white space is skipping up to the first
/// character that is not white space.
proof fn lemma_trim_start_skip(s: Seq<char>, a: int)
    requires
        0 <= a <= s.len(),
        forall|j: int| 0 <= j < a ==> spec_is_space(s[j]),
        a < s.len() ==> !spec_is_space(s[a]),
    ensures
        spec_trim_start(s) == s.skip(a),
    decreases a,
{
    if a == 0 {
        assert(s.skip(0) =~= s);
    } else {
        assert(spec_is_space(s[0]));
        lemma_trim_start_skip(s.skip(1), a - 1);
        assert(s.skip(1).skip(a - 1) =~= s.skip(a));
    }
}

/// Dropping the trailing white space is taking up to past the last
/// character that is not white space.
proof fn lemma_trim_end_take(s: Seq<char>, b: int)
    requires
        0 <= b <= s.len(),
        forall|j: int| b <= j < s.len() ==> spec_is_space(s[j]),
        b > 0 ==> !spec_is_space(s[b - 1]),
    ensures
        spec_trim_end(s) == s.take(b),
    decreases s.len() - b,
{
    if b == s.len() {
        assert(s.take(b) =~= s);
    } else {
        assert(spec_is_space(s.last()));
        lemma_trim_end_take(s.drop_last(), b);
        assert(s.drop_last().take(b) =~= s.take(b));
    }
}

/// The line without its leading and trailing white space, as it is
/// matched.
fn trim_line(s: &str) -> (r: String)
    ensures
        r@ == spec_trim(s@),
{
    let n: usize = s.unicode_len();
    let mut a: usize = 0;
    while a < n && is_space(s.get_char(a))
        invariant
            n == s@.len(),
            0 <= a <= n,
            forall|j: int| 0 <= j < a ==> spec_is_space(s@[j]),
        decreases n - a,
    {
        a = a + 1;
    }
    let mut b: usize = n;
    while b > a && is_space(s.get_char(b - 1))
        invariant
            n == s@.len(),
            0 <= a <= b <= n,
            forall|j: int| b <= j < n ==> spec_is_space(s@[j]),
        decreases b,
    {
        b = b - 1;
    }
    let r = s.substring_char(a, b).to_owned();
    proof {
        lemma_trim_start_skip(s@, a as int);
        let t = s@.skip(a as int);
        assert(forall|j: int| b - a <= j < t.len() ==> spec_is_space(t[j]));
        if b > a {
            assert(t[b - a - 1] == s@[b - 1]);
        }
        lemma_trim_end_take(t, b - a);
        assert(t.take(b - a) =~= s@.subrange(a as int, b as int));
    }
    r
}

/// The matches of one line joined by single spaces.
pub open spec fn spec_join_space(parts: Seq<Seq<char>>) -> Seq<char>
    decreases parts.len(),
{
    if parts.len() == 0 {
        Seq::<char>::empty()
    } else if parts.len() == 1 {
        parts[0]
    } else {
        spec_join_space(parts.drop_last()) + seq![' '] + parts.last()
    }
}

/// What one line's matches become on the output stream: nothing when
/// there is no match, one joined line in same-line mode, and otherwise
/// one line per match, in order.
pub open spec fn spec_format(ms: Seq<Seq<char>>, same_line: bool) -> Seq<Seq<char>> {
    if ms.len() == 0 {
        Seq::<Seq<char>>::empty()
    } else if same_line {
        seq![spec_join_space(ms)]
    } else {
        ms
    }
}

/// Formats the matches of one line for the output stream. A line with
/// no match emits no output line at all; in same-line mode all matches
/// are joined by single spaces into one line; otherwise each match is a
/// line of its own, in order.
pub fn format_matches(matches: &Vec<String>, same_line: bool) -> (r: Vec<String>)
    ensures
        r.deep_view() == spec_format(matches.deep_view(), same_line),
        matches.deep_view().len() == 0 ==> r.deep_view().len() == 0,
{
    let ghost ms = matches.deep_view();
    if matches.len() == 0 {
        let r: Vec<String> = Vec::new();
        proof {
            assert(r.deep_view() =~~= spec_format(ms, same_line));
        }
        r
    } else if same_line {
        let ghost gs = matches.deep_view();
        let mut joined = matches[0].clone();
        let mut j: usize = 1;
        proof {
            assert(gs.take(1) =~= seq![gs[0]]);
        }
        while j < matches.len()
            invariant
                gs == matches.deep_view(),
                matches@.len() == gs.len(),
                1 <= j <= gs.len(),
                joined@ == spec_join_space(gs.take(j as int)),
            decreases matches@.len() - j,
        {
            joined.append(" ");
            joined.append(matches[j].as_str());
            proof {
                reveal_strlit(" ");
                assert(gs.take(j + 1).drop_last() =~= gs.take(j as int));
                assert(gs.take(j + 1).last() == gs[j as int]);
                assert(joined@ =~= spec_join_space(gs.take(j + 1)));
            }
            j = j + 1;
        }
        proof {
            assert(gs.take(matches@.len() as int) =~= gs);
        }
        let mut r: Vec<String> = Vec::new();
        r.push(joined);
        proof {
            assert(r.deep_view() =~~= spec_format(ms, same_line));
        }
        r
    } else {
        let mut r: Vec<String> = Vec::new();
        let mut i: usize = 0;
        while i < matches.len()
            invariant
                ms == matches.deep_view(),
                matches@.len() == ms.len(),
                0 <= i <= ms.len(),
                r.deep_view() == ms.take(i as int),
            decreases matches@.len() - i,
        {
            let ghost old_r = r.deep_view();
            r.push(matches[i].clone());
            proof {
                assert(r.deep_view() =~~= old_r.push(ms[i as int]));
                assert(old_r.push(ms[i as int]) =~= ms.take(i + 1));
            }
            i = i + 1;
        }
        proof {
            assert(ms.take(matches@.len() as int) =~= ms);
            assert(r.deep_view() =~~= spec_format(ms, same_line));
        }
        r
    }
}

/// What one input line leaves on the output stream: the line is
/// trimmed, matched, and the matches are formatted.
pub open spec fn spec_line_output(m: CompiledMatcher, line: Seq<char>, same_line: bool) -> Seq<
    Seq<char>,
> {
    spec_format(m.spec_matches(spec_trim(line)), same_line)
}

/// Trims one input line, matches it, and formats the matches. A line
/// with no match leaves nothing on the output stream.
pub fn process_line(m: &CompiledMatcher, line: &str, same_line: bool) -> (r: Vec<String>)
    ensures
        r.deep_view() == spec_line_output(*m, line@, same_line),
        m.spec_matches(spec_trim(line@)).len() == 0 ==> r.deep_view().len() == 0,
{
    let trimmed = trim_line(line);
    let ms = m.match_line(trimmed.as_str());
    format_matches(&ms, same_line)
}

/// What a whole run leaves on the output stream: the lines each input
/// line leaves, concatenated in input order.
pub open spec fn spec_output(m: CompiledMatcher, lines: Seq<Seq<char>>, same_line: bool) -> Seq<
    Seq<char>,
>
    decreases lines.len(),
{
    if lines.len() == 0 {
        Seq::<Seq<char>>::empty()
    } else {
        spec_output(m, lines.drop_last(), same_line) + spec_line_output(
            m,
            lines.last(),
            same_line,
        )
    }
}

/// Processes a whole input, one line at a time, in order.
pub fn process_lines(m: &CompiledMatcher, lines: &Vec<String>, same_line: bool) -> (r: Vec<String>)
    ensures
        r.deep_view() == spec_output(*m, lines.deep_view(), same_line),
{
    let ghost ld = lines.deep_view();
    let mut out: Vec<String> = Vec::new();
    let mut i: usize = 0;
    proof {
        assert(ld.take(0) =~= Seq::<Seq<char>>::empty());
        assert(out.deep_view() =~~= spec_output(*m, ld.take(0), same_line));
    }
    while i < lines.len()
        invariant
            ld == lines.deep_view(),
            lines@.len() == ld.len(),
            0 <= i <= ld.len(),
            out.deep_view() == spec_output(*m, ld.take(i as int), same_line),
        decreases lines@.len() - i,
    {
        let mut piece = process_line(m, lines[i].as_str(), same_line);
        let ghost old_out = out.deep_view();
        let ghost pv = piece.deep_view();
        let mut j: usize = 0;
        while j < piece.len()
            invariant
                pv == piece.deep_view(),
                piece@.len() == pv.len(),
                0 <= j <= pv.len(),
                out.deep_view() == old_out + pv.take(j as int),
            decreases piece@.len() - j,
        {
            let ghost mid_out = out.deep_view();
            out.push(piece[j].clone());
            proof {
                assert(out.deep_view() =~~= mid_out.push(pv[j as int]));
                assert(mid_out.push(pv[j as int]) =~= old_out + pv.take(j + 1));
            }
            j = j + 1;
        }
        proof {
            assert(pv.take(piece@.len() as int) =~= pv);
            assert(ld.take(i + 1).drop_last() =~= ld.take(i as int));
            assert(ld.take(i + 1).last() == ld[i as int]);
            assert(out.deep_view() == spec_output(*m, ld.take(i + 1), same_line));
        }
        i = i + 1;
    }
    proof {
        assert(ld.take(lines@.len() as int) =~= ld);
    }
    out
}

/// Running the tool twice on identical rules, flags and input produces
/// identical output: what a run prints is a function of the pattern the
/// matcher holds, the mode and the input lines, and of nothing else.
pub proof fn lemma_output_deterministic(
    m1: CompiledMatcher,
    m2: CompiledMatcher,
    lines: Seq<Seq<char>>,
    same_line: bool,
)
    requires
        m1.spec_pattern_text() == m2.spec_pattern_text(),
    ensures
        spec_output(m1, lines, same_line) == spec_output(m2, lines, same_line),
    decreases lines.len(),
{
    if lines.len() == 0 {
    } else {
        lemma_output_deterministic(m1, m2, lines.drop_last(), same_line);
    }
}

/// Two matchers compiled from the same rule lines with the same flag
/// hold the same pattern text — what compile promises of each — so two
/// whole runs on identical rules, flags and input leave identical bytes
/// on the output stream.
pub proof fn lemma_run_deterministic(
    m1: CompiledMatcher,
    m2: CompiledMatcher,
    rule_lines: Seq<Seq<char>>,
    case_insensitive: bool,
    input: Seq<Seq<char>>,
    same_line: bool,
)
    requires
        m1.spec_pattern_text() == spec_pattern(rule_lines, case_insensitive),
        m2.spec_pattern_text() == spec_pattern(rule_lines, case_insensitive),
    ensures
        spec_output(m1, input, same_line) == spec_output(m2, input, same_line),
{
    lemma_output_deterministic(m1, m2, input, same_line);
}

} // verus!
