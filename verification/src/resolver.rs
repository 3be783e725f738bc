use vstd::prelude::*;
use vstd::string::StrSliceExecFns;
use vstd::string::StringExecFns;

verus! {

/// Splits a character sequence into the tokens between commas.
/// The empty input yields one empty token; a leading, doubled or
/// trailing comma yields an empty token, as string splitting does.
pub open spec fn spec_split_csv(s: Seq<char>) -> Seq<Seq<char>>
    decreases s.len(),
{
    if s.len() == 0 {
        seq![Seq::<char>::empty()]
    } else if s[0] == ',' {
        seq![Seq::<char>::empty()] + spec_split_csv(s.skip(1))
    } else {
        let rest = spec_split_csv(s.skip(1));
        seq![seq![s[0]] + rest[0]] + rest.skip(1)
    }
}

/// A rule name is turned into a path by putting one separator between
/// the rules directory and the name. An empty name yields the directory
/// plus an empty final segment, a path that will fail to open downstream.
pub open spec fn spec_join_path(dir: Seq<char>, name: Seq<char>) -> Seq<char> {
    dir + seq!['/'] + name
}

/// Keeps the first occurrence of each element, in order of first occurrence.
pub open spec fn spec_dedup(s: Seq<Seq<char>>) -> Seq<Seq<char>>
    decreases s.len(),
{
    if s.len() == 0 {
        Seq::<Seq<char>>::empty()
    } else {
        let rest = spec_dedup(s.drop_last());
        if rest.contains(s.last()) {
            rest
        } else {
            rest.push(s.last())
        }
    }
}

/// The paths named by a comma-separated rule list under a directory,
/// deduplicated, in order of first occurrence.
pub open spec fn spec_resolve(csv: Seq<char>, dir: Seq<char>) -> Seq<Seq<char>> {
    spec_dedup(spec_split_csv(csv).map_values(|n: Seq<char>| spec_join_path(dir, n)))
}

/// A split never comes out empty: there is always at least one token.
pub proof fn lemma_split_csv_len(s: Seq<char>)
    ensures
        spec_split_csv(s).len() >= 1,
    decreases s.len(),
{
    if s.len() > 0 {
        lemma_split_csv_len(s.skip(1));
    }
}

/// A sequence without commas is a single token.
proof fn lemma_split_csv_no_comma(s: Seq<char>)
    requires
        forall|j: int| 0 <= j < s.len() ==> s[j] != ',',
    ensures
        spec_split_csv(s) == seq![s],
    decreases s.len(),
{
    if s.len() == 0 {
        assert(spec_split_csv(s) =~~= seq![s]);
    } else {
        lemma_split_csv_no_comma(s.skip(1));
        let rest = spec_split_csv(s.skip(1));
        assert(rest == seq![s.skip(1)]);
        assert(seq![s[0]] + rest[0] =~= s);
        assert(spec_split_csv(s) =~~= seq![s]);
    }
}

/// Splitting at the first comma: the part before it is the first token
/// and the rest is split on its own.
proof fn lemma_split_csv_first_comma(s: Seq<char>, k: int)
    requires
        0 <= k < s.len(),
        s[k] == ',',
        forall|j: int| 0 <= j < k ==> s[j] != ',',
    ensures
        spec_split_csv(s) == seq![s.take(k)] + spec_split_csv(s.skip(k + 1)),
    decreases k,
{
    if k == 0 {
        assert(s.take(0) =~= Seq::<char>::empty());
        assert(spec_split_csv(s) =~~= seq![s.take(0)] + spec_split_csv(s.skip(1)));
    } else {
        let t = s.skip(1);
        assert(t[k - 1] == ',');
        assert(forall|j: int| 0 <= j < k - 1 ==> t[j] != ',');
        lemma_split_csv_first_comma(t, k - 1);
        let rest = spec_split_csv(t);
        assert(rest == seq![t.take(k - 1)] + spec_split_csv(t.skip(k)));
        assert(rest[0] == t.take(k - 1));
        assert(seq![s[0]] + t.take(k - 1) =~= s.take(k));
        assert(rest.skip(1) =~= spec_split_csv(t.skip(k)));
        assert(t.skip(k) =~= s.skip(k + 1));
        assert(spec_split_csv(s) =~~= seq![s.take(k)] + spec_split_csv(s.skip(k + 1)));
    }
}

/// Deduplication keeps exactly the elements of the original.
proof fn lemma_dedup_contains(s: Seq<Seq<char>>, x: Seq<char>)
    ensures
        spec_dedup(s).contains(x) <==> s.contains(x),
    decreases s.len(),
{
    if s.len() == 0 {
    } else {
        lemma_dedup_contains(s.drop_last(), x);
        let rest = spec_dedup(s.drop_last());
        let d = spec_dedup(s);
        if s.contains(x) {
            let i = choose|i: int| 0 <= i < s.len() && s[i] == x;
            if i < s.len() - 1 {
                assert(s.drop_last()[i] == x);
                assert(s.drop_last().contains(x));
                let j = choose|j: int| 0 <= j < rest.len() && rest[j] == x;
                assert(d[j] == x);
                assert(d.contains(x));
            } else {
                assert(s.last() == x);
                if rest.contains(x) {
                    let j = choose|j: int| 0 <= j < rest.len() && rest[j] == x;
                    assert(d[j] == x);
                    assert(d.contains(x));
                } else {
                    assert(d[rest.len() as int] == x);
                    assert(d.contains(x));
                }
            }
        }
        if d.contains(x) {
            let i = choose|i: int| 0 <= i < d.len() && d[i] == x;
            if rest.contains(s.last()) {
                assert(rest[i] == x);
                assert(rest.contains(x));
                assert(s.drop_last().contains(x));
                let j = choose|j: int| 0 <= j < s.drop_last().len() && s.drop_last()[j] == x;
                assert(s[j] == x);
                assert(s.contains(x));
            } else {
                if i < rest.len() {
                    assert(rest[i] == x);
                    assert(rest.contains(x));
                    assert(s.drop_last().contains(x));
                    let j = choose|j: int| 0 <= j < s.drop_last().len() && s.drop_last()[j] == x;
                    assert(s[j] == x);
                    assert(s.contains(x));
                } else {
                    assert(x == s.last());
                    assert(s[s.len() - 1] == x);
                    assert(s.contains(x));
                }
            }
        }
    }
}

/// Deduplication leaves no element twice.
proof fn lemma_dedup_no_duplicates(s: Seq<Seq<char>>)
    ensures
        spec_dedup(s).no_duplicates(),
    decreases s.len(),
{
    if s.len() == 0 {
    } else {
        lemma_dedup_no_duplicates(s.drop_last());
        let rest = spec_dedup(s.drop_last());
        if !rest.contains(s.last()) {
            let d = rest.push(s.last());
            assert forall|i: int, j: int| 0 <= i < j < d.len() implies d[i] != d[j] by {
                if j < rest.len() {
                    assert(rest[i] != rest[j]);
                } else {
                    assert(d[j] == s.last());
                    assert(rest[i] == d[i]);
                    if d[i] == s.last() {
                        assert(rest.contains(s.last()));
                    }
                }
            }
        }
    }
}

/// Deduplication never grows a sequence, and leaves something of a
/// non-empty one.
proof fn lemma_dedup_len(s: Seq<Seq<char>>)
    ensures
        spec_dedup(s).len() <= s.len(),
        s.len() > 0 ==> spec_dedup(s).len() >= 1,
    decreases s.len(),
{
    if s.len() == 0 {
    } else {
        lemma_dedup_len(s.drop_last());
        if s.len() == 1 {
            let rest = spec_dedup(s.drop_last());
            if !rest.contains(s.last()) {
                assert(spec_dedup(s).len() == rest.len() + 1);
            } else {
                assert(rest.len() >= 1) by {
                    assert(rest.contains(s.last()));
                    let i = choose|i: int| 0 <= i < rest.len() && rest[i] == s.last();
                }
            }
        }
    }
}

/// Two distinct names never join to the same path under one directory.
proof fn lemma_join_path_injective(dir: Seq<char>)
    ensures
        forall|x: Seq<char>, y: Seq<char>|
            #![trigger spec_join_path(dir, x), spec_join_path(dir, y)]
            spec_join_path(dir, x) == spec_join_path(dir, y) ==> x == y,
{
    assert forall|x: Seq<char>, y: Seq<char>|
        spec_join_path(dir, x) == spec_join_path(dir, y) implies x == y by {
        let jx = spec_join_path(dir, x);
        let jy = spec_join_path(dir, y);
        assert(jx.len() == dir.len() + 1 + x.len());
        assert(jy.len() == dir.len() + 1 + y.len());
        assert(x.len() == y.len());
        assert forall|i: int| 0 <= i < x.len() implies x[i] == y[i] by {
            assert(jx[dir.len() + 1 + i] == x[i]);
            assert(jy[dir.len() + 1 + i] == y[i]);
        }
        assert(x =~= y);
    }
}

/// Mapping through an injective function neither merges nor splits
/// duplicates: deduplication commutes with the map.
proof fn lemma_dedup_map(s: Seq<Seq<char>>, f: spec_fn(Seq<char>) -> Seq<char>)
    requires
        forall|x: Seq<char>, y: Seq<char>| #![trigger f(x), f(y)] f(x) == f(y) ==> x == y,
    ensures
        spec_dedup(s.map_values(f)) == spec_dedup(s).map_values(f),
    decreases s.len(),
{
    if s.len() == 0 {
        assert(s.map_values(f) =~~= Seq::<Seq<char>>::empty());
        assert(spec_dedup(s).map_values(f) =~~= Seq::<Seq<char>>::empty());
        assert(spec_dedup(s.map_values(f)) =~~= spec_dedup(s).map_values(f));
    } else {
        lemma_dedup_map(s.drop_last(), f);
        let sm = s.map_values(f);
        assert(sm.drop_last() =~= s.drop_last().map_values(f));
        assert(sm.last() == f(s.last()));
        let rest = spec_dedup(s.drop_last());
        let restm = spec_dedup(sm.drop_last());
        assert(restm == rest.map_values(f));
        if rest.contains(s.last()) {
            let i = choose|i: int| 0 <= i < rest.len() && rest[i] == s.last();
            assert(restm[i] == f(s.last()));
            assert(restm.contains(f(s.last())));
            assert(spec_dedup(sm) == restm);
        } else {
            if restm.contains(f(s.last())) {
                let i = choose|i: int| 0 <= i < restm.len() && restm[i] == f(s.last());
                assert(restm[i] == f(rest[i]));
                assert(rest[i] == s.last());
                assert(rest.contains(s.last()));
            }
            assert(!restm.contains(f(s.last())));
            assert(spec_dedup(sm) == restm.push(f(s.last())));
            assert(rest.push(s.last()).map_values(f) =~= restm.push(f(s.last())));
        }
    }
}

/// Duplicates collapse: a rule list resolves to pairwise distinct paths,
/// the resolved set still holds exactly the paths the list names, and its
/// size is the number of distinct names: at least one, and at most one
/// per name in the list.
pub proof fn lemma_resolve_bounds(csv: Seq<char>, dir: Seq<char>)
    ensures
        spec_resolve(csv, dir).no_duplicates(),
        spec_resolve(csv, dir).len() == spec_dedup(spec_split_csv(csv)).len(),
        1 <= spec_resolve(csv, dir).len() <= spec_split_csv(csv).len(),
        forall|p: Seq<char>|
            spec_resolve(csv, dir).contains(p) <==> spec_split_csv(csv).map_values(
                |n: Seq<char>| spec_join_path(dir, n),
            ).contains(p),
{
    let f = |n: Seq<char>| spec_join_path(dir, n);
    let names = spec_split_csv(csv);
    let paths = names.map_values(f);
    lemma_split_csv_len(csv);
    lemma_dedup_no_duplicates(paths);
    lemma_dedup_len(paths);
    lemma_dedup_len(names);
    lemma_join_path_injective(dir);
    lemma_dedup_map(names, f);
    assert(spec_resolve(csv, dir) == spec_dedup(names).map_values(f));
    assert forall|p: Seq<char>|
        spec_resolve(csv, dir).contains(p) <==> paths.contains(p) by {
        lemma_dedup_contains(paths, p);
    }
}

/// Splits a comma-separated list into its tokens.
fn split_csv(s: &str) -> (r: Vec<String>)
    ensures
        r.deep_view() == spec_split_csv(s@),
{
    let n: usize = s.unicode_len();
    let mut toks: Vec<String> = Vec::new();
    let mut start: usize = 0;
    let mut i: usize = 0;
    proof {
        assert(toks.deep_view() =~~= Seq::<Seq<char>>::empty());
        assert(s@.skip(0) =~= s@);
        assert(toks.deep_view() + spec_split_csv(s@) =~~= spec_split_csv(s@));
    }
    while i < n
        invariant
            n == s@.len(),
            0 <= start <= i <= n,
            forall|j: int| start <= j < i ==> s@[j] != ',',
            spec_split_csv(s@) == toks.deep_view() + spec_split_csv(s@.skip(start as int)),
        decreases n - i,
    {
        if s.get_char(i) == ',' {
            let tok = s.substring_char(start, i).to_owned();
            proof {
                let sub = s@.skip(start as int);
                let k = i - start;
                assert(forall|j: int| 0 <= j < k ==> sub[j] != ',');
                lemma_split_csv_first_comma(sub, k as int);
                assert(sub.take(k as int) =~= s@.subrange(start as int, i as int));
                assert(sub.skip(k + 1) =~= s@.skip(i + 1));
            }
            let ghost old_toks = toks.deep_view();
            toks.push(tok);
            proof {
                assert(toks.deep_view() =~~= old_toks.push(s@.subrange(start as int, i as int)));
                assert(spec_split_csv(s@) =~~= toks.deep_view() + spec_split_csv(
                    s@.skip(i + 1),
                ));
            }
            start = i + 1;
        }
        i = i + 1;
    }
    let tok = s.substring_char(start, n).to_owned();
    proof {
        let sub = s@.skip(start as int);
        lemma_split_csv_no_comma(sub);
        assert(sub =~= s@.subrange(start as int, n as int));
    }
    let ghost old_toks = toks.deep_view();
    toks.push(tok);
    proof {
        assert(toks.deep_view() =~~= old_toks.push(s@.subrange(start as int, n as int)));
        assert(spec_split_csv(s@) =~~= toks.deep_view());
    }
    toks
}

/// Joins the rules directory and a rule name with one separator.
fn join_path(dir: &str, name: &str) -> (r: String)
    ensures
        r@ == spec_join_path(dir@, name@),
{
    let mut p = dir.to_owned();
    p.append("/");
    p.append(name);
    proof {
        reveal_strlit("/");
        assert(p@ =~= spec_join_path(dir@, name@));
    }
    p
}

/// Whether some element of `v` views as the same characters as `x`.
fn vec_contains(v: &Vec<String>, x: &String) -> (r: bool)
    ensures
        r == v.deep_view().contains(x@),
{
    let mut i: usize = 0;
    while i < v.len()
        invariant
            0 <= i <= v.len(),
            forall|j: int| 0 <= j < i ==> v.deep_view()[j] != x@,
        decreases v.len() - i,
    {
        if x.eq(&v[i]) {
            assert(v.deep_view()[i as int] == x@);
            return true;
        }
        i = i + 1;
    }
    assert(forall|j: int| 0 <= j < v.deep_view().len() ==> v.deep_view()[j] != x@);
    false
}

/// Turns a comma-separated list of rule names and a rules directory into
/// the list of rule-file paths, without duplicates, in order of first
/// occurrence. Pure path arithmetic: no file is touched and no error is
/// possible here; a name that names no readable file fails downstream.
pub fn parse_rules_filenames(rules: &str, config_dir: &str) -> (r: Vec<String>)
    ensures
        r.deep_view() == spec_resolve(rules@, config_dir@),
        r.deep_view().no_duplicates(),
        r.deep_view().len() == spec_dedup(spec_split_csv(rules@)).len(),
        1 <= r.deep_view().len() <= spec_split_csv(rules@).len(),
{
    proof {
        lemma_resolve_bounds(rules@, config_dir@);
    }
    let toks = split_csv(rules);
    let ghost names = spec_split_csv(rules@);
    let ghost paths = names.map_values(|n: Seq<char>| spec_join_path(config_dir@, n));
    let mut out: Vec<String> = Vec::new();
    let mut i: usize = 0;
    while i < toks.len()
        invariant
            toks.deep_view() == names,
            paths == names.map_values(|n: Seq<char>| spec_join_path(config_dir@, n)),
            0 <= i <= toks.len(),
            toks.len() == names.len(),
            out.deep_view() == spec_dedup(paths.take(i as int)),
        decreases toks.len() - i,
    {
        let p = join_path(config_dir, toks[i].as_str());
        assert(p@ == paths[i as int]);
        let ghost old_out = out.deep_view();
        if !vec_contains(&out, &p) {
            out.push(p);
            proof {
                assert(out.deep_view() =~~= old_out.push(paths[i as int]));
            }
        }
        proof {
            assert(paths.take(i + 1).drop_last() =~= paths.take(i as int));
            assert(paths.take(i + 1).last() == paths[i as int]);
            assert(out.deep_view() == spec_dedup(paths.take(i + 1)));
        }
        i = i + 1;
    }
    proof {
        assert(paths.take(toks.len() as int) =~= paths);
    }
    out
}

} // verus!
