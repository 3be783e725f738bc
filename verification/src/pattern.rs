use vstd::prelude::*;
use vstd::string::StrSliceExecFns;
use vstd::string::StringExecFns;

verus! {

/// The characters that carry meaning in a regular expression and must be
/// escaped for a rule line to be matched literally.
pub open spec fn spec_is_meta(c: char) -> bool {
    c == '\\' || c == '.' || c == '+' || c == '*' || c == '?' || c == '(' || c == ')' || c == '|'
        || c == '[' || c == ']' || c == '{' || c == '}' || c == '^' || c == '$' || c == '#'
        || c == '&' || c == '-' || c == '~'
}

/// One character of a rule line, escaped where it would otherwise be
/// read as regular-expression syntax.
pub open spec fn spec_escape_char(c: char) -> Seq<char> {
    if spec_is_meta(c) {
        seq!['\\', c]
    } else {
        seq![c]
    }
}

/// A rule line escaped so that it matches itself and nothing else.
pub open spec fn spec_escape(s: Seq<char>) -> Seq<char>
    decreases s.len(),
{
    if s.len() == 0 {
        Seq::<char>::empty()
    } else {
        spec_escape_char(s[0]) + spec_escape(s.skip(1))
    }
}

/// An escaped rule line wrapped as one alternative of the combined
/// pattern: a capturing group, with the case-insensitivity flag set
/// inside the group when asked for, so that the flag applies to each
/// alternative on its own.
pub open spec fn spec_group(p: Seq<char>, case_insensitive: bool) -> Seq<char> {
    if case_insensitive {
        seq!['(', '(', '?', 'i', ')'] + p + seq![')']
    } else {
        seq!['('] + p + seq![')']
    }
}

/// The alternatives contributed by a list of rule lines: one group per
/// non-empty line, in order. Empty lines are dropped: they would only
/// add an alternative that matches nothing of any length.
pub open spec fn spec_groups(lines: Seq<Seq<char>>, case_insensitive: bool) -> Seq<Seq<char>> {
    lines.filter(|l: Seq<char>| l.len() > 0).map_values(
        |l: Seq<char>| spec_group(spec_escape(l), case_insensitive),
    )
}

/// Alternatives joined into one pattern, separated by the alternation bar.
pub open spec fn spec_join_bar(parts: Seq<Seq<char>>) -> Seq<char>
    decreases parts.len(),
{
    if parts.len() == 0 {
        Seq::<char>::empty()
    } else if parts.len() == 1 {
        parts[0]
    } else {
        spec_join_bar(parts.drop_last()) + seq!['|'] + parts.last()
    }
}

/// The text of the combined pattern built from a list of rule lines,
/// or nothing when no line is non-empty.
pub open spec fn spec_pattern(lines: Seq<Seq<char>>, case_insensitive: bool) -> Option<Seq<char>> {
    if spec_groups(lines, case_insensitive).len() == 0 {
        None
    } else {
        Some(spec_join_bar(spec_groups(lines, case_insensitive)))
    }
}

/// Reads an escaped rule line back: each escape stands for the one
/// character after its backslash.
pub open spec fn spec_unescape(t: Seq<char>) -> Seq<char>
    decreases t.len(),
{
    if t.len() == 0 {
        Seq::<char>::empty()
    } else if t[0] == '\\' && t.len() >= 2 {
        seq![t[1]] + spec_unescape(t.skip(2))
    } else {
        seq![t[0]] + spec_unescape(t.skip(1))
    }
}

/// Escaping loses nothing: the escaped form of a rule line reads back
/// as exactly the line itself, so a literal-looking rule line stands
/// for itself and never for regular-expression syntax.
pub proof fn lemma_escape_round_trip(s: Seq<char>)
    ensures
        spec_unescape(spec_escape(s)) == s,
    decreases s.len(),
{
    if s.len() == 0 {
        assert(spec_unescape(spec_escape(s)) =~= s);
    } else {
        lemma_escape_round_trip(s.skip(1));
        let e = spec_escape(s);
        let c = s[0];
        if spec_is_meta(c) {
            assert(e == seq!['\\', c] + spec_escape(s.skip(1)));
            assert(e[0] == '\\' && e.len() >= 2);
            assert(e[1] == c);
            assert(e.skip(2) =~= spec_escape(s.skip(1)));
            assert(seq![c] + s.skip(1) =~= s);
        } else {
            assert(e == seq![c] + spec_escape(s.skip(1)));
            assert(e[0] == c);
            assert(c != '\\');
            assert(e.skip(1) =~= spec_escape(s.skip(1)));
            assert(seq![c] + s.skip(1) =~= s);
        }
    }
}

/// A sequence whose elements all satisfy a predicate is left whole by
/// filtering on it.
proof fn lemma_filter_all(t: Seq<Seq<char>>, p: spec_fn(Seq<char>) -> bool)
    requires
        forall|i: int| 0 <= i < t.len() ==> p(t[i]),
    ensures
        t.filter(p) == t,
    decreases t.len(),
{
    reveal(Seq::filter);
    if t.len() == 0 {
        assert(t.filter(p) =~= t);
    } else {
        assert(forall|i: int| 0 <= i < t.drop_last().len() ==> p(t.drop_last()[i]));
        lemma_filter_all(t.drop_last(), p);
        assert(p(t.last()));
        assert(t.drop_last().push(t.last()) =~= t);
    }
}

/// Empty rule lines are dropped without harm: compiling a list of lines
/// builds the very pattern that its non-empty lines alone would build,
/// so an empty line in a rule file contributes nothing.
pub proof fn lemma_empty_lines_ignored(lines: Seq<Seq<char>>, case_insensitive: bool)
    ensures
        spec_pattern(lines.filter(|l: Seq<char>| l.len() > 0), case_insensitive) == spec_pattern(
            lines,
            case_insensitive,
        ),
{
    broadcast use vstd::seq_lib::group_filter_ensures;

    let p = |l: Seq<char>| l.len() > 0;
    assert(forall|i: int| 0 <= i < lines.filter(p).len() ==> p(lines.filter(p)[i]));
    lemma_filter_all(lines.filter(p), p);
}

/// Escaping one more character appends its escape.
proof fn lemma_escape_snoc(s: Seq<char>, c: char)
    ensures
        spec_escape(s.push(c)) == spec_escape(s) + spec_escape_char(c),
    decreases s.len(),
{
    if s.len() == 0 {
        assert(s.push(c)[0] == c);
        assert(s.push(c).skip(1) =~= Seq::<char>::empty());
        assert(spec_escape(s.push(c).skip(1)) == Seq::<char>::empty());
        assert(spec_escape(s.push(c)) == spec_escape_char(c) + Seq::<char>::empty());
        assert(spec_escape_char(c) + Seq::<char>::empty() =~= spec_escape(s)
            + spec_escape_char(c));
    } else {
        let a = spec_escape_char(s[0]);
        let e1 = spec_escape(s.skip(1));
        let ec = spec_escape_char(c);
        assert(s.push(c)[0] == s[0]);
        assert(s.push(c).skip(1) =~= s.skip(1).push(c));
        lemma_escape_snoc(s.skip(1), c);
        assert(spec_escape(s.push(c)) == a + (e1 + ec));
        assert(spec_escape(s) == a + e1);
        assert(a + (e1 + ec) =~= (a + e1) + ec);
    }
}

/// Whether a character must be escaped in a rule line.
fn is_meta(c: char) -> (r: bool)
    ensures
        r == spec_is_meta(c),
{
    c == '\\' || c == '.' || c == '+' || c == '*' || c == '?' || c == '(' || c == ')' || c == '|'
        || c == '[' || c == ']' || c == '{' || c == '}' || c == '^' || c == '$' || c == '#'
        || c == '&' || c == '-' || c == '~'
}

/// Escapes a rule line so that it is matched as the literal text it is.
pub fn escape_literal(line: &str) -> (r: String)
    ensures
        r@ == spec_escape(line@),
{
    let n: usize = line.unicode_len();
    let mut out = String::new();
    let mut i: usize = 0;
    proof {
        assert(line@.take(0) =~= Seq::<char>::empty());
    }
    while i < n
        invariant
            n == line@.len(),
            0 <= i <= n,
            out@ == spec_escape(line@.take(i as int)),
        decreases n - i,
    {
        let c = line.get_char(i);
        if is_meta(c) {
            out.append("\\");
            proof {
                reveal_strlit("\\");
            }
        }
        let piece = line.substring_char(i, i + 1);
        proof {
            assert(piece@ =~= seq![line@[i as int]]);
        }
        out.append(piece);
        proof {
            lemma_escape_snoc(line@.take(i as int), line@[i as int]);
            assert(line@.take(i + 1) =~= line@.take(i as int).push(line@[i as int]));
            assert(out@ =~= spec_escape(line@.take(i + 1)));
        }
        i = i + 1;
    }
    proof {
        assert(line@.take(n as int) =~= line@);
    }
    out
}

/// Wraps an escaped rule line as one alternative of the combined pattern.
fn make_group(escaped: &str, case_insensitive: bool) -> (r: String)
    ensures
        r@ == spec_group(escaped@, case_insensitive),
{
    let mut g = if case_insensitive {
        "((?i)".to_owned()
    } else {
        "(".to_owned()
    };
    g.append(escaped);
    g.append(")");
    proof {
        reveal_strlit("((?i)");
        reveal_strlit("(");
        reveal_strlit(")");
        assert(g@ =~= spec_group(escaped@, case_insensitive));
    }
    g
}

/// Builds the text of the combined pattern from the lines of all rule
/// files, in order: each non-empty line, escaped, becomes one capturing
/// alternative, and the alternatives are joined by the alternation bar.
/// Empty lines contribute nothing; when every line is empty (or there is
/// none) there is no pattern to build and the result is `None`.
pub fn build_pattern(lines: &Vec<String>, case_insensitive: bool) -> (r: Option<String>)
    ensures
        match r {
            Some(p) => spec_pattern(lines.deep_view(), case_insensitive) == Some(p@),
            None => spec_pattern(lines.deep_view(), case_insensitive) is None,
        },
{
    let ghost ld = lines.deep_view();
    let mut groups: Vec<String> = Vec::new();
    let mut i: usize = 0;
    proof {
        assert(ld.take(0) =~= Seq::<Seq<char>>::empty());
        assert(spec_groups(ld.take(0), case_insensitive) =~~= groups.deep_view());
    }
    while i < lines.len()
        invariant
            ld == lines.deep_view(),
            lines@.len() == ld.len(),
            0 <= i <= ld.len(),
            groups.deep_view() == spec_groups(ld.take(i as int), case_insensitive),
        decreases lines@.len() - i,
    {
        let ghost pre = ld.take(i as int);
        let ghost cur = ld[i as int];
        proof {
            assert(ld.take(i + 1) =~= pre.push(cur));
            assert(ld.take(i + 1).drop_last() =~= pre);
            reveal(Seq::filter);
        }
        if !lines[i].as_str().is_empty() {
            let esc = escape_literal(lines[i].as_str());
            let g = make_group(esc.as_str(), case_insensitive);
            let ghost old_groups = groups.deep_view();
            groups.push(g);
            proof {
                let f = |l: Seq<char>| spec_group(spec_escape(l), case_insensitive);
                let pred = |l: Seq<char>| l.len() > 0;
                assert(ld.take(i + 1).filter(pred) =~= pre.filter(pred).push(cur));
                assert(pre.filter(pred).push(cur).map_values(f) =~= pre.filter(pred).map_values(
                    f,
                ).push(f(cur)));
                assert(groups.deep_view() =~~= old_groups.push(f(cur)));
                assert(groups.deep_view() == spec_groups(ld.take(i + 1), case_insensitive));
            }
        } else {
            proof {
                let pred = |l: Seq<char>| l.len() > 0;
                assert(ld.take(i + 1).filter(pred) =~= pre.filter(pred));
                assert(spec_groups(ld.take(i + 1), case_insensitive) =~~= spec_groups(
                    pre,
                    case_insensitive,
                ));
            }
        }
        i = i + 1;
    }
    proof {
        assert(ld.take(lines@.len() as int) =~= ld);
    }
    if groups.len() == 0 {
        return None;
    }
    let ghost gs = groups.deep_view();
    let mut joined = groups[0].clone();
    let mut j: usize = 1;
    proof {
        assert(gs.take(1) =~= seq![gs[0]]);
        assert(spec_join_bar(gs.take(1)) == gs[0]);
    }
    while j < groups.len()
        invariant
            gs == groups.deep_view(),
            groups@.len() == gs.len(),
            1 <= j <= gs.len(),
            joined@ == spec_join_bar(gs.take(j as int)),
        decreases groups@.len() - j,
    {
        joined.append("|");
        joined.append(groups[j].as_str());
        proof {
            reveal_strlit("|");
            assert(gs.take(j + 1).drop_last() =~= gs.take(j as int));
            assert(gs.take(j + 1).last() == gs[j as int]);
            assert(joined@ =~= spec_join_bar(gs.take(j + 1)));
        }
        j = j + 1;
    }
    proof {
        assert(gs.take(groups@.len() as int) =~= gs);
    }
    Some(joined)
}

} // verus!
