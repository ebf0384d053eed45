//! What the listing commands show: pipeline selection by pattern, stage
//! chains, command lines, word wrapping and the compact table layout, run
//! grouping and progress.

use vstd::prelude::*;

use crate::config::{
    first_per_name, law_first_directory_wins, lemma_names_distinct_permutation, lemma_same_elements,
    names_distinct,
};
use crate::error::ForgeError;
use crate::order::{names_of, sort_by_name, sorted};
use crate::pipeline::{Pipeline, Stage, StageView, stage_at, stage_count, stage_entries};
use crate::store::{PipelineRun, RunStatus};
use crate::text::{
    append_chars, byte_len, char_byte_len, char_utf8_len, chars_of, contains_substring, decimal,
    decimal_chars, join, join_chars, lemma_utf8_len_bounds, lemma_utf8_len_concat, seq_contains,
    split_words, string_from_chars, to_lowercase, to_owned_string, unicode_lowercase,
    unicode_white_space, utf8_len, words, words_from,
};

verus! {

broadcast use vstd::seq_lib::group_to_multiset_ensures;

// ---------------------------------------------------------------------------
// Selecting pipelines by pattern
// ---------------------------------------------------------------------------

/// A pipeline name matches a pattern when the lowercased pattern occurs in
/// the lowercased name.
pub open spec fn pipeline_matches(name: Seq<char>, pattern: Seq<char>) -> bool {
    seq_contains(unicode_lowercase(name), unicode_lowercase(pattern))
}

/// Case-insensitive substring match of a pattern against a pipeline name.
pub fn matches_pipeline(name: &str, pattern: &str) -> (b: bool)
    ensures
        b == pipeline_matches(name@, pattern@),
        pattern@.len() == 0 ==> b,
{
    let n = to_lowercase(name);
    let p = to_lowercase(pattern);
    proof {
        if pattern@.len() == 0 {
            assert(n@.subrange(0, 0) =~= p@);
            assert(crate::text::occurs_at(n@, p@, 0));
        }
    }
    contains_substring(n.as_str(), p.as_str())
}

/// The entries of `av` whose name matches `pattern`, in order.
pub open spec fn matching(av: Seq<(Seq<char>, Seq<char>)>, pattern: Seq<char>) -> Seq<
    (Seq<char>, Seq<char>),
>
    decreases av.len(),
{
    if av.len() == 0 {
        seq![]
    } else if pipeline_matches(av.last().0, pattern) {
        matching(av.drop_last(), pattern).push(av.last())
    } else {
        matching(av.drop_last(), pattern)
    }
}

/// The matches of each pattern in turn.
pub open spec fn scan(av: Seq<(Seq<char>, Seq<char>)>, pats: Seq<Seq<char>>) -> Seq<
    (Seq<char>, Seq<char>),
>
    decreases pats.len(),
{
    if pats.len() == 0 {
        seq![]
    } else {
        scan(av, pats.drop_last()) + matching(av, pats.last())
    }
}

/// The patterns that match no available pipeline at all, in order.
pub open spec fn unmatched(av: Seq<(Seq<char>, Seq<char>)>, pats: Seq<Seq<char>>) -> Seq<Seq<char>>
    decreases pats.len(),
{
    if pats.len() == 0 {
        seq![]
    } else if matching(av, pats.last()).len() == 0 {
        unmatched(av, pats.drop_last()).push(pats.last())
    } else {
        unmatched(av, pats.drop_last())
    }
}

proof fn lemma_matching_contains(av: Seq<(Seq<char>, Seq<char>)>, pattern: Seq<char>)
    ensures
        forall|x: (Seq<char>, Seq<char>)|
            #[trigger] matching(av, pattern).contains(x) <==> av.contains(x) && pipeline_matches(
                x.0,
                pattern,
            ),
    decreases av.len(),
{
    if av.len() > 0 {
        let p = av.drop_last();
        lemma_matching_contains(p, pattern);
        assert forall|x: (Seq<char>, Seq<char>)|
            #[trigger] matching(av, pattern).contains(x) <==> av.contains(x) && pipeline_matches(
                x.0,
                pattern,
            ) by {
            let l = av.last();
            let m = matching(p, pattern);
            assert(av =~= p.push(l));
            assert(av.contains(x) <==> p.contains(x) || x == l) by {
                if av.contains(x) {
                    let i = choose|i: int| 0 <= i < av.len() && av[i] == x;
                    if i < p.len() {
                        assert(p[i] == x);
                    }
                }
                if p.contains(x) {
                    let i = choose|i: int| 0 <= i < p.len() && p[i] == x;
                    assert(av[i] == x);
                }
                if x == l {
                    assert(av[av.len() - 1] == x);
                }
            }
            if pipeline_matches(l.0, pattern) {
                assert(matching(av, pattern) == m.push(l));
                assert(m.push(l).contains(x) <==> m.contains(x) || x == l) by {
                    if m.push(l).contains(x) {
                        let i = choose|i: int| 0 <= i < m.push(l).len() && m.push(l)[i] == x;
                        if i < m.len() {
                            assert(m[i] == x);
                        }
                    }
                    if m.contains(x) {
                        let i = choose|i: int| 0 <= i < m.len() && m[i] == x;
                        assert(m.push(l)[i] == x);
                    }
                    if x == l {
                        assert(m.push(l)[m.len() as int] == x);
                    }
                }
            } else {
                assert(matching(av, pattern) == m);
            }
        }
    }
}

proof fn lemma_scan_contains(av: Seq<(Seq<char>, Seq<char>)>, pats: Seq<Seq<char>>)
    ensures
        forall|x: (Seq<char>, Seq<char>)|
            #[trigger] scan(av, pats).contains(x) <==> av.contains(x) && exists|k: int|
                0 <= k < pats.len() && pipeline_matches(x.0, #[trigger] pats[k]),
    decreases pats.len(),
{
    if pats.len() > 0 {
        let q = pats.drop_last();
        lemma_scan_contains(av, q);
        lemma_matching_contains(av, pats.last());
        let a = scan(av, q);
        let b = matching(av, pats.last());
        assert forall|x: (Seq<char>, Seq<char>)|
            #[trigger] scan(av, pats).contains(x) <==> av.contains(x) && exists|k: int|
                0 <= k < pats.len() && pipeline_matches(x.0, #[trigger] pats[k]) by {
            if (a + b).contains(x) {
                let i = choose|i: int| 0 <= i < (a + b).len() && (a + b)[i] == x;
                if i < a.len() {
                    assert(a[i] == x);
                    assert(a.contains(x));
                    let k = choose|k: int| 0 <= k < q.len() && pipeline_matches(x.0, #[trigger] q[k]);
                    assert(pats[k] == q[k]);
                } else {
                    assert(b[i - a.len()] == x);
                    assert(b.contains(x));
                    assert(pats[pats.len() - 1] == pats.last());
                }
            }
            if av.contains(x) && exists|k: int|
                0 <= k < pats.len() && pipeline_matches(x.0, #[trigger] pats[k]) {
                let k = choose|k: int| 0 <= k < pats.len() && pipeline_matches(x.0, #[trigger] pats[k]);
                if k < q.len() {
                    assert(q[k] == pats[k]);
                    assert(a.contains(x));
                    let i = choose|i: int| 0 <= i < a.len() && a[i] == x;
                    assert((a + b)[i] == x);
                } else {
                    assert(b.contains(x));
                    let i = choose|i: int| 0 <= i < b.len() && b[i] == x;
                    assert((a + b)[a.len() + i] == x);
                }
            }
        }
    }
}

/// Selection by patterns is the union of the patterns' matches, each name
/// once: an available pipeline is selected exactly when some pattern
/// matches its name, and only available pipelines are selected.
pub proof fn law_selection_is_union(av: Seq<(Seq<char>, Seq<char>)>, pats: Seq<Seq<char>>)
    ensures
        names_distinct(first_per_name(scan(av, pats))),
        forall|x: (Seq<char>, Seq<char>)|
            #[trigger] first_per_name(scan(av, pats)).contains(x) ==> av.contains(x),
        forall|i: int|
            0 <= i < av.len() ==> (names_of(first_per_name(scan(av, pats))).contains(#[trigger] av[i].0)
                <==> exists|k: int| 0 <= k < pats.len() && pipeline_matches(av[i].0, #[trigger] pats[k])),
{
    let c = scan(av, pats);
    let f = first_per_name(c);
    law_first_directory_wins(c);
    lemma_scan_contains(av, pats);
    assert forall|x: (Seq<char>, Seq<char>)| #[trigger] f.contains(x) implies av.contains(x) by {
        let j = choose|j: int| 0 <= j < f.len() && f[j] == x;
        let i = choose|i: int|
            0 <= i < c.len() && c[i] == #[trigger] f[j] && forall|k: int|
                0 <= k < i ==> #[trigger] c[k].0 != c[i].0;
        assert(c.contains(c[i]));
    }
    assert forall|i: int| 0 <= i < av.len() implies (names_of(f).contains(#[trigger] av[i].0)
        <==> exists|k: int| 0 <= k < pats.len() && pipeline_matches(av[i].0, #[trigger] pats[k])) by {
        let n = av[i].0;
        if exists|k: int| 0 <= k < pats.len() && pipeline_matches(n, #[trigger] pats[k]) {
            assert(av.contains(av[i]));
            assert(c.contains(av[i]));
        }
        if names_of(f).contains(n) {
            let j = choose|j: int| 0 <= j < names_of(f).len() && names_of(f)[j] == n;
            let ci = choose|ci: int|
                0 <= ci < c.len() && c[ci] == #[trigger] f[j] && forall|k: int|
                    0 <= k < ci ==> #[trigger] c[k].0 != c[ci].0;
            assert(c.contains(c[ci]));
            assert(f[j].0 == n);
        }
    }
}

proof fn lemma_first_per_name_extends(
    a: Seq<(Seq<char>, Seq<char>)>,
    x: (Seq<char>, Seq<char>),
)
    ensures
        first_per_name(a.push(x)) == (if names_of(first_per_name(a)).contains(x.0) {
            first_per_name(a)
        } else {
            first_per_name(a).push(x)
        }),
{
    assert(a.push(x).drop_last() =~= a);
}

/// Runs the selection: entries matching each pattern in turn, each name kept
/// once (first match wins); also the patterns that added nothing new.
fn select(av: &Vec<(String, String)>, patterns: &Vec<String>) -> (r: (
    Vec<(String, String)>,
    Vec<String>,
))
    ensures
        r.0.deep_view() == first_per_name(scan(av.deep_view(), patterns.deep_view())),
        r.1.deep_view() == unmatched(av.deep_view(), patterns.deep_view()),
{
    let ghost avs = av.deep_view();
    let ghost ps = patterns.deep_view();
    let mut found: Vec<(String, String)> = Vec::new();
    let mut missing: Vec<String> = Vec::new();
    let mut k: usize = 0;
    while k < patterns.len()
        invariant
            k <= patterns@.len(),
            avs == av.deep_view(),
            ps == patterns.deep_view(),
            found.deep_view() == first_per_name(scan(avs, ps.take(k as int))),
            missing.deep_view() == unmatched(avs, ps.take(k as int)),
        decreases patterns@.len() - k,
    {
        let mut any = false;
        let ghost sc = scan(avs, ps.take(k as int));
        let mut j: usize = 0;
        while j < av.len()
            invariant
                j <= av@.len(),
                k < patterns@.len(),
                avs == av.deep_view(),
                ps == patterns.deep_view(),
                found.deep_view() == first_per_name(sc + matching(avs.take(j as int), ps[k as int])),
                any == (matching(avs.take(j as int), ps[k as int]).len() > 0),
            decreases av@.len() - j,
        {
            let ghost m0 = matching(avs.take(j as int), ps[k as int]);
            proof {
                assert(avs.take(j + 1).drop_last() =~= avs.take(j as int));
                assert(avs.take(j + 1).last() == avs[j as int]);
            }
            if matches_pipeline(av[j].0.as_str(), patterns[k].as_str()) {
                any = true;
                let seen = has_entry_named(&found, &av[j].0);
                proof {
                    assert(sc + m0.push(avs[j as int]) =~= (sc + m0).push(avs[j as int]));
                    lemma_first_per_name_extends(sc + m0, avs[j as int]);
                }
                if !seen {
                    found.push((av[j].0.clone(), av[j].1.clone()));
                    proof {
                        assert(found.deep_view() =~= first_per_name(sc + m0).push(avs[j as int]));
                    }
                }
            }
            j = j + 1;
        }
        proof {
            assert(avs.take(j as int) =~= avs);
            assert(ps.take(k + 1).drop_last() =~= ps.take(k as int));
            assert(ps.take(k + 1).last() == ps[k as int]);
        }
        if !any {
            missing.push(patterns[k].clone());
            proof {
                assert(missing.deep_view() =~= unmatched(avs, ps.take(k as int)).push(ps[k as int]));
            }
        }
        k = k + 1;
    }
    proof {
        assert(ps.take(k as int) =~= ps);
    }
    (found, missing)
}

fn has_entry_named(v: &Vec<(String, String)>, name: &String) -> (b: bool)
    ensures
        b == names_of(v.deep_view()).contains(name@),
{
    let mut i: usize = 0;
    while i < v.len()
        invariant
            i <= v@.len(),
            forall|k: int| 0 <= k < i ==> v.deep_view()[k].0 != name@,
        decreases v@.len() - i,
    {
        if v[i].0 == *name {
            assert(names_of(v.deep_view())[i as int] == name@);
            return true;
        }
        i = i + 1;
    }
    assert forall|k: int| 0 <= k < names_of(v.deep_view()).len() implies names_of(v.deep_view())[k]
        != name@ by {
        assert(names_of(v.deep_view())[k] == v.deep_view()[k].0);
    }
    false
}

/// The pipelines (name, path) whose name matches any of the patterns, each
/// name once (the first match wins), sorted by name.
pub fn filter_pipelines(available: &Vec<(String, String)>, patterns: &Vec<String>) -> (r: Result<
    Vec<(String, String)>,
    ForgeError,
>)
    ensures
        r matches Ok(v) && sorted(names_of(v.deep_view())) && v.deep_view().to_multiset()
            =~= first_per_name(scan(available.deep_view(), patterns.deep_view())).to_multiset(),
        r matches Ok(v) && names_distinct(v.deep_view()) && forall|x: (Seq<char>, Seq<char>)|
            v.deep_view().contains(x) <==> first_per_name(
                scan(available.deep_view(), patterns.deep_view()),
            ).contains(x),
{
    let (found, _) = select(available, patterns);
    let ghost fv = found.deep_view();
    let v = sort_by_name(found);
    proof {
        law_first_directory_wins(scan(available.deep_view(), patterns.deep_view()));
        lemma_names_distinct_permutation(fv, v.deep_view());
        lemma_same_elements(fv, v.deep_view());
    }
    Ok(v)
}

/// The patterns that match no available pipeline, in order (each is
/// reported as "no match").
pub fn unmatched_patterns(available: &Vec<(String, String)>, patterns: &Vec<String>) -> (r: Vec<
    String,
>)
    ensures
        r.deep_view() == unmatched(available.deep_view(), patterns.deep_view()),
{
    let (_, missing) = select(available, patterns);
    missing
}

/// How `forge ls` shows pipelines.
#[derive(Debug, Clone, Copy, PartialEq, Eq, Structural)]
pub enum ListingMode {
    /// One line per pipeline with its description.
    Compact,
    /// Every pipeline in detail.
    All,
    /// The pipelines matching the patterns, in detail.
    Matching,
}

/// Compact without patterns or `--all`; all pipelines in detail with `--all`;
/// otherwise the matching ones in detail.
pub fn listing_mode(pattern_count: usize, all: bool) -> (m: ListingMode)
    ensures
        pattern_count == 0 && !all ==> m == ListingMode::Compact,
        all ==> m == ListingMode::All,
        pattern_count > 0 && !all ==> m == ListingMode::Matching,
{
    if pattern_count == 0 && !all {
        ListingMode::Compact
    } else if all {
        ListingMode::All
    } else {
        ListingMode::Matching
    }
}

// ---------------------------------------------------------------------------
// Stage chains and command lines
// ---------------------------------------------------------------------------

/// How a stage appears in a chain: its name, tagged when it has a review gate.
pub open spec fn chain_label(s: StageView) -> Seq<char> {
    if s.review {
        s.name + " [review]"@
    } else {
        s.name
    }
}

/// The stages of a pipeline as a chain, e.g. `a -> b [review] -> c`.
pub open spec fn stage_chain(es: Seq<(Seq<char>, StageView)>) -> Seq<char> {
    join(Seq::new(es.len(), |i: int| chain_label(es[i].1)), " -> "@)
}

/// Formats the stage chain of a pipeline.
pub fn format_stage_chain(pipeline: &Pipeline) -> (r: String)
    ensures
        r@ == stage_chain(stage_entries(pipeline.stages)),
{
    let ghost es = stage_entries(pipeline.stages);
    let n = stage_count(&pipeline.stages);
    let mut labels: Vec<Vec<char>> = Vec::new();
    let mut i: usize = 0;
    while i < n
        invariant
            n == es.len(),
            es == stage_entries(pipeline.stages),
            i <= n,
            labels@.map_values(|p: Vec<char>| p@) == Seq::new(
                i as nat,
                |k: int| chain_label(es[k].1),
            ),
        decreases n - i,
    {
        match stage_at(&pipeline.stages, i) {
            Some((_, stage)) => {
                let mut label = chars_of(stage.name.as_str());
                if stage.review {
                    append_chars(&mut label, &chars_of(" [review]"));
                }
                let ghost before = labels@.map_values(|p: Vec<char>| p@);
                labels.push(label);
                assert(labels@.map_values(|p: Vec<char>| p@) =~= before.push(
                    chain_label(es[i as int].1),
                ));
            },
            None => {},
        }
        i = i + 1;
        assert(labels@.map_values(|p: Vec<char>| p@) =~= Seq::new(
            i as nat,
            |k: int| chain_label(es[k].1),
        ));
    }
    let out = join_chars(&labels, &chars_of(" -> "));
    string_from_chars(&out)
}

/// The command line of a stage as shown: the command, then its arguments
/// separated by spaces.
pub open spec fn command_line_of(s: StageView) -> Seq<char> {
    if s.args.len() == 0 {
        s.command
    } else {
        s.command + " "@ + join(s.args, " "@)
    }
}

/// Renders a stage's command line.
pub fn command_line(stage: &Stage) -> (r: String)
    ensures
        r@ == command_line_of(stage@),
{
    if stage.args.len() == 0 {
        return stage.command.clone();
    }
    let mut parts: Vec<Vec<char>> = Vec::new();
    let mut i: usize = 0;
    while i < stage.args.len()
        invariant
            i <= stage.args@.len(),
            parts@.map_values(|p: Vec<char>| p@) == stage.args.deep_view().take(i as int),
        decreases stage.args@.len() - i,
    {
        let ghost before = parts@.map_values(|p: Vec<char>| p@);
        parts.push(chars_of(stage.args[i].as_str()));
        assert(parts@.map_values(|p: Vec<char>| p@) =~= before.push(stage.args[i as int]@));
        i = i + 1;
        assert(stage.args.deep_view().take(i as int) =~= stage.args.deep_view().take(i - 1).push(
            stage.args[i - 1]@,
        ));
    }
    assert(stage.args.deep_view().take(i as int) =~= stage.args.deep_view());
    let joined = join_chars(&parts, &chars_of(" "));
    let mut out = chars_of(stage.command.as_str());
    append_chars(&mut out, &chars_of(" "));
    append_chars(&mut out, &joined);
    string_from_chars(&out)
}

// ---------------------------------------------------------------------------
// Word wrapping
// ---------------------------------------------------------------------------

/// Greedy filling: lines built from the words `ws` given the line `cur`
/// under construction; a word joins the current line (after one space) when
/// the result still fits in `width` bytes, and starts a new line otherwise.
pub open spec fn greedy(ws: Seq<Seq<char>>, width: nat, cur: Seq<char>) -> Seq<Seq<char>>
    decreases ws.len(),
{
    if ws.len() == 0 {
        if cur.len() == 0 {
            seq![]
        } else {
            seq![cur]
        }
    } else if cur.len() == 0 {
        greedy(ws.drop_first(), width, ws[0])
    } else if utf8_len(cur) + 1 + utf8_len(ws[0]) <= width {
        greedy(ws.drop_first(), width, cur + seq![' '] + ws[0])
    } else {
        seq![cur] + greedy(ws.drop_first(), width, ws[0])
    }
}

/// `text` wrapped to `width` bytes on word boundaries. Text that fits, or a
/// zero width, gives the text itself as the only line; otherwise the words
/// are filled greedily (a single empty line when there are no words).
pub open spec fn wrapped(text: Seq<char>, width: nat) -> Seq<Seq<char>> {
    if width == 0 || utf8_len(text) <= width {
        seq![text]
    } else if greedy(words(text), width, seq![]).len() == 0 {
        seq![seq![]]
    } else {
        greedy(words(text), width, seq![])
    }
}

/// Wraps `text` to `width` bytes, breaking on word boundaries.
pub fn wrap_text(text: &str, width: usize) -> (r: Vec<String>)
    ensures
        r.deep_view() == wrapped(text@, width as nat),
{
    let chars = chars_of(text);
    let tlen = byte_len(&chars);
    if width == 0 || tlen <= width as u128 {
        let mut one: Vec<String> = Vec::new();
        one.push(to_owned_string(text));
        assert(one.deep_view() =~= seq![text@]);
        return one;
    }
    let ws = split_words(&chars);
    let ghost wsv = words(text@);
    let mut lines: Vec<String> = Vec::new();
    let mut cur: Vec<char> = Vec::new();
    let mut cur_len: u128 = 0;
    let mut i: usize = 0;
    assert(wsv.subrange(0, wsv.len() as int) =~= wsv);
    while i < ws.len()
        invariant
            i <= ws@.len(),
            ws@.len() == wsv.len(),
            forall|k: int| 0 <= k < ws@.len() ==> #[trigger] ws@[k]@ == wsv[k],
            cur_len == utf8_len(cur@),
            lines.deep_view() + greedy(wsv.subrange(i as int, wsv.len() as int), width as nat, cur@)
                == greedy(wsv, width as nat, seq![]),
        decreases ws@.len() - i,
    {
        let ghost rest = wsv.subrange(i as int, wsv.len() as int);
        proof {
            assert(rest[0] == wsv[i as int]);
            assert(rest.drop_first() =~= wsv.subrange(i + 1, wsv.len() as int));
            lemma_utf8_len_bounds(cur@);
        }
        let w = &ws[i];
        assert(w@ == wsv[i as int]);
        let ghost c0 = cur@;
        let w_len = byte_len(w);
        let wl = w.len();
        let n = cur.len();
        assert(cur_len <= 4 * n && w_len <= 4 * wl);
        if n == 0 {
            cur = w.clone();
            assert(cur@ =~= w@);
            cur_len = w_len;
        } else if cur_len + 1 + w_len <= width as u128 {
            proof {
                lemma_utf8_len_concat(cur@, seq![' ']);
                lemma_utf8_len_concat(cur@ + seq![' '], w@);
                assert(utf8_len(seq![' ']) == 1) by {
                    reveal_with_fuel(utf8_len, 2);
                    assert(seq![' '].drop_first() =~= Seq::<char>::empty());
                }
            }
            cur.push(' ');
            assert(cur@ =~= c0 + seq![' ']);
            append_chars(&mut cur, w);
            cur_len = cur_len + 1 + w_len;
            assert(cur@ =~= c0 + seq![' '] + w@);
        } else {
            let line = string_from_chars(&cur);
            proof {
                assert(lines.deep_view().push(line@) + greedy(
                    rest.drop_first(),
                    width as nat,
                    w@,
                ) =~= lines.deep_view() + (seq![cur@] + greedy(rest.drop_first(), width as nat, w@)));
            }
            lines.push(line);
            cur = w.clone();
            assert(cur@ =~= w@);
            cur_len = w_len;
        }
        i = i + 1;
    }
    proof {
        assert(wsv.subrange(i as int, wsv.len() as int) =~= Seq::<Seq<char>>::empty());
    }
    if cur.len() > 0 {
        lines.push(string_from_chars(&cur));
    } else {
        assert(lines.deep_view() + Seq::<Seq<char>>::empty() =~= lines.deep_view());
    }
    if lines.len() == 0 {
        lines.push(String::new());
        assert(lines.deep_view() =~= seq![Seq::<char>::empty()]);
    }
    lines
}

// ---------------------------------------------------------------------------
// Compact listing layout
// ---------------------------------------------------------------------------

/// One row of the compact listing: the padded name and its wrapped
/// description lines.
#[derive(Debug, Clone)]
pub struct CompactRow {
    pub name: String,
    pub lines: Vec<String>,
}

/// The compact listing: the width of the `"  <name> - "` prefix, and the rows.
#[derive(Debug, Clone)]
pub struct CompactLayout {
    pub prefix_len: usize,
    pub rows: Vec<CompactRow>,
}

/// The largest UTF-8 length among `names` (zero when there are none).
pub open spec fn max_len(names: Seq<Seq<char>>) -> nat
    decreases names.len(),
{
    if names.len() == 0 {
        0
    } else {
        let m = max_len(names.drop_last());
        if utf8_len(names.last()) > m {
            utf8_len(names.last())
        } else {
            m
        }
    }
}

/// `name` padded with spaces to `width` characters (`format!("{:width$}")`).
pub open spec fn padded(name: Seq<char>, width: nat) -> Seq<char> {
    if name.len() >= width {
        name
    } else {
        name + Seq::new((width - name.len()) as nat, |i: int| ' ')
    }
}

/// The active-run count shown after a description, when there are any.
pub open spec fn count_suffix(count: nat) -> Seq<char> {
    if count > 0 {
        " ("@ + decimal(count) + ")"@
    } else {
        seq![]
    }
}

/// The names of the listing entries.
pub open spec fn entry_names(es: Seq<(Seq<char>, Seq<char>, usize)>) -> Seq<Seq<char>> {
    Seq::new(es.len(), |i: int| es[i].0)
}

/// Room left for descriptions on a terminal line after the prefix.
pub open spec fn description_width(term_width: nat, prefix: nat) -> nat {
    if term_width >= prefix {
        (term_width - prefix) as nat
    } else {
        0
    }
}

proof fn lemma_max_len(names: Seq<Seq<char>>)
    ensures
        forall|i: int| 0 <= i < names.len() ==> utf8_len(#[trigger] names[i]) <= max_len(names),
        names.len() > 0 ==> exists|i: int|
            0 <= i < names.len() && utf8_len(#[trigger] names[i]) == max_len(names),
    decreases names.len(),
{
    if names.len() > 0 {
        lemma_max_len(names.drop_last());
        assert forall|i: int| 0 <= i < names.len() implies utf8_len(#[trigger] names[i]) <= max_len(
            names,
        ) by {
            if i < names.len() - 1 {
                assert(names[i] == names.drop_last()[i]);
            }
        }
        if utf8_len(names.last()) <= max_len(names.drop_last()) && names.len() > 1 {
            let i = choose|i: int|
                0 <= i < names.drop_last().len() && utf8_len(#[trigger] names.drop_last()[i])
                    == max_len(names.drop_last());
            assert(names[i] == names.drop_last()[i]);
        } else {
            assert(utf8_len(names[names.len() - 1]) == max_len(names) || names.len() == 1);
        }
    }
}

/// Lays out the compact listing of `(name, description, active runs)`
/// entries for a terminal `term_width` columns wide: names are padded to the
/// longest name, each description (with the active-run count, when there are
/// any) is wrapped to the room left after the `"  <name> - "` prefix.
pub fn compact_layout(entries: &Vec<(String, String, usize)>, term_width: usize) -> (r:
    CompactLayout)
    requires
        forall|i: int|
            0 <= i < entries@.len() ==> utf8_len(#[trigger] entries@[i].0@) + 5 <= usize::MAX,
    ensures
        r.prefix_len == max_len(entry_names(entries.deep_view())) + 5,
        r.rows@.len() == entries@.len(),
        forall|i: int|
            0 <= i < entries@.len() ==> (#[trigger] r.rows@[i]).name@ == padded(
                entries@[i].0@,
                max_len(entry_names(entries.deep_view())),
            ) && r.rows@[i].lines.deep_view() == wrapped(
                entries@[i].1@ + count_suffix(entries@[i].2 as nat),
                description_width(
                    term_width as nat,
                    max_len(entry_names(entries.deep_view())) + 5,
                ),
            ),
{
    let ghost names = entry_names(entries.deep_view());
    let mut max: u128 = 0;
    let mut i: usize = 0;
    while i < entries.len()
        invariant
            i <= entries@.len(),
            names == entry_names(entries.deep_view()),
            max == max_len(names.take(i as int)),
        decreases entries@.len() - i,
    {
        let l = byte_len(&chars_of(entries[i].0.as_str()));
        proof {
            assert(names.take(i + 1).drop_last() =~= names.take(i as int));
            assert(names.take(i + 1).last() == entries@[i as int].0@);
        }
        if l > max {
            max = l;
        }
        i = i + 1;
    }
    proof {
        assert(names.take(i as int) =~= names);
        lemma_max_len(names);
        if names.len() > 0 {
            let k = choose|k: int| 0 <= k < names.len() && utf8_len(#[trigger] names[k]) == max_len(
                names,
            );
            assert(names[k] == entries@[k].0@);
            assert(utf8_len(entries@[k].0@) + 5 <= usize::MAX);
        }
    }
    let max_u = max as usize;
    let prefix_len = max_u + 5;
    let desc_width = if term_width >= prefix_len {
        term_width - prefix_len
    } else {
        0
    };
    let mut rows: Vec<CompactRow> = Vec::new();
    let mut i: usize = 0;
    while i < entries.len()
        invariant
            i <= entries@.len(),
            names == entry_names(entries.deep_view()),
            max_u == max_len(names),
            prefix_len == max_u + 5,
            desc_width == description_width(term_width as nat, prefix_len as nat),
            rows@.len() == i,
            forall|k: int|
                0 <= k < i ==> (#[trigger] rows@[k]).name@ == padded(entries@[k].0@, max_u as nat)
                    && rows@[k].lines.deep_view() == wrapped(
                    entries@[k].1@ + count_suffix(entries@[k].2 as nat),
                    desc_width as nat,
                ),
        decreases entries@.len() - i,
    {
        let name_chars = chars_of(entries[i].0.as_str());
        let mut padded_name = name_chars.clone();
        assert(padded_name@ =~= name_chars@);
        let nc = name_chars.len();
        if nc < max_u {
            let ghost base = padded_name@;
            let mut k: usize = nc;
            while k < max_u
                invariant
                    nc <= k <= max_u,
                    padded_name@ == base + Seq::new((k - nc) as nat, |j: int| ' '),
                decreases max_u - k,
            {
                padded_name.push(' ');
                k = k + 1;
                assert(padded_name@ =~= base + Seq::new((k - nc) as nat, |j: int| ' '));
            }
        }
        let mut desc = chars_of(entries[i].1.as_str());
        let count = entries[i].2;
        if count > 0 {
            append_chars(&mut desc, &chars_of(" ("));
            append_chars(&mut desc, &decimal_chars(count));
            append_chars(&mut desc, &chars_of(")"));
        } else {
            assert(desc@ =~= desc@ + Seq::<char>::empty());
        }
        assert(desc@ =~= entries@[i as int].1@ + count_suffix(count as nat));
        assert(padded_name@ =~= padded(entries@[i as int].0@, max_u as nat));
        let desc_s = string_from_chars(&desc);
        let lines = wrap_text(desc_s.as_str(), desc_width);
        rows.push(CompactRow { name: string_from_chars(&padded_name), lines });
        i = i + 1;
    }
    CompactLayout { prefix_len, rows }
}

// ---------------------------------------------------------------------------
// Runs: grouping, progress, the active run
// ---------------------------------------------------------------------------

/// Each distinct name once, in order of first appearance.
pub open spec fn first_occurrences(names: Seq<Seq<char>>) -> Seq<Seq<char>>
    decreases names.len(),
{
    if names.len() == 0 {
        seq![]
    } else if first_occurrences(names.drop_last()).contains(names.last()) {
        first_occurrences(names.drop_last())
    } else {
        first_occurrences(names.drop_last()).push(names.last())
    }
}

/// The positions holding `key`, ascending.
pub open spec fn positions_of(names: Seq<Seq<char>>, key: Seq<char>) -> Seq<usize>
    decreases names.len(),
{
    if names.len() == 0 {
        seq![]
    } else if names.last() == key {
        positions_of(names.drop_last(), key).push((names.len() - 1) as usize)
    } else {
        positions_of(names.drop_last(), key)
    }
}

proof fn lemma_first_occurrences_contains(names: Seq<Seq<char>>, x: Seq<char>)
    ensures
        first_occurrences(names).contains(x) <==> names.contains(x),
    decreases names.len(),
{
    if names.len() > 0 {
        lemma_first_occurrences_contains(names.drop_last(), x);
        let f = first_occurrences(names.drop_last());
        if names.contains(x) {
            let k = choose|k: int| 0 <= k < names.len() && names[k] == x;
            if k < names.len() - 1 {
                assert(names.drop_last()[k] == x);
            }
            if !f.contains(names.last()) {
                assert(f.push(names.last())[f.len() as int] == names.last());
                if k < names.len() - 1 {
                    let j = choose|j: int| 0 <= j < f.len() && f[j] == x;
                    assert(f.push(names.last())[j] == x);
                }
            }
        }
        if first_occurrences(names).contains(x) {
            if !f.contains(names.last()) {
                let j = choose|j: int|
                    0 <= j < f.push(names.last()).len() && f.push(names.last())[j] == x;
                if j < f.len() {
                    assert(f[j] == x);
                    let k = choose|k: int|
                        0 <= k < names.drop_last().len() && names.drop_last()[k] == x;
                    assert(names[k] == x);
                } else {
                    assert(names[names.len() - 1] == x);
                }
            } else {
                let k = choose|k: int|
                    0 <= k < names.drop_last().len() && names.drop_last()[k] == x;
                assert(names[k] == x);
            }
        }
    }
}

fn position_of_key(groups: &Vec<(String, Vec<usize>)>, key: &String) -> (r: Option<usize>)
    ensures
        r matches Some(k) ==> k < groups@.len() && groups@[k as int].0@ == key@,
        r is None ==> forall|k: int| 0 <= k < groups@.len() ==> groups@[k].0@ != key@,
{
    let mut k: usize = 0;
    while k < groups.len()
        invariant
            k <= groups@.len(),
            forall|j: int| 0 <= j < k ==> groups@[j].0@ != key@,
        decreases groups@.len() - k,
    {
        if groups[k].0 == *key {
            return Some(k);
        }
        k = k + 1;
    }
    None
}

/// Groups runs by pipeline: given each run's pipeline name, every distinct
/// name (in order of first appearance) with the positions of its runs.
pub fn group_by_pipeline(names: &Vec<String>) -> (r: Vec<(String, Vec<usize>)>)
    ensures
        r@.len() == first_occurrences(names.deep_view()).len(),
        forall|k: int|
            0 <= k < r@.len() ==> (#[trigger] r@[k]).0@ == first_occurrences(names.deep_view())[k]
                && r@[k].1@ == positions_of(names.deep_view(), r@[k].0@),
        forall|k: int| 0 <= k < r@.len() ==> (#[trigger] r@[k]).1@.len() > 0,
{
    let ghost ns = names.deep_view();
    let mut groups: Vec<(String, Vec<usize>)> = Vec::new();
    let mut i: usize = 0;
    while i < names.len()
        invariant
            i <= names@.len(),
            ns == names.deep_view(),
            groups@.len() == first_occurrences(ns.take(i as int)).len(),
            forall|k: int|
                0 <= k < groups@.len() ==> (#[trigger] groups@[k]).0@ == first_occurrences(
                    ns.take(i as int),
                )[k] && groups@[k].1@ == positions_of(ns.take(i as int), groups@[k].0@),
        decreases names@.len() - i,
    {
        let ghost pre = ns.take(i as int);
        let ghost nxt = ns.take(i + 1);
        proof {
            assert(nxt.drop_last() =~= pre);
            assert(nxt.last() == names@[i as int]@);
        }
        match position_of_key(&groups, &names[i]) {
            Some(k) => {
                proof {
                    assert(first_occurrences(pre)[k as int] == names@[i as int]@);
                    assert(first_occurrences(pre).contains(nxt.last()));
                }
                let ghost old_groups = groups@;
                let mut entry = groups.remove(k);
                entry.1.push(i);
                groups.insert(k, entry);
                proof {
                    assert forall|j: int| 0 <= j < groups@.len() implies (#[trigger] groups@[j]).0@
                        == first_occurrences(nxt)[j] && groups@[j].1@ == positions_of(
                        nxt,
                        groups@[j].0@,
                    ) by {
                        if j == k {
                            assert(groups@[j].1@ =~= old_groups[j].1@.push(i));
                        } else {
                            assert(groups@[j] == old_groups[j]);
                            assert(old_groups[j].0@ != names@[i as int]@) by {
                                lemma_first_occurrences_distinct(pre);
                            }
                        }
                    }
                }
            },
            None => {
                proof {
                    assert forall|k: int| 0 <= k < first_occurrences(pre).len() implies first_occurrences(
                        pre,
                    )[k] != nxt.last() by {
                        assert(groups@[k].0@ == first_occurrences(pre)[k]);
                    }
                    lemma_positions_absent(pre, nxt.last());
                }
                let mut idx: Vec<usize> = Vec::new();
                idx.push(i);
                let ghost old_groups = groups@;
                groups.push((names[i].clone(), idx));
                proof {
                    assert forall|j: int| 0 <= j < groups@.len() implies (#[trigger] groups@[j]).0@
                        == first_occurrences(nxt)[j] && groups@[j].1@ == positions_of(
                        nxt,
                        groups@[j].0@,
                    ) by {
                        if j < old_groups.len() {
                            assert(groups@[j] == old_groups[j]);
                        } else {
                            assert(groups@[j].1@ =~= seq![i]);
                            assert(positions_of(pre, nxt.last()) =~= Seq::<usize>::empty());
                        }
                    }
                }
            },
        }
        i = i + 1;
    }
    assert(ns.take(i as int) =~= ns);
    assert forall|k: int| 0 <= k < groups@.len() implies (#[trigger] groups@[k]).1@.len() > 0 by {
        let key = first_occurrences(ns)[k];
        assert(first_occurrences(ns).contains(key));
        lemma_first_occurrences_contains(ns, key);
        lemma_positions_present(ns, key);
    }
    groups
}

/// A name that occurs has at least one position.
proof fn lemma_positions_present(names: Seq<Seq<char>>, key: Seq<char>)
    requires
        names.contains(key),
    ensures
        positions_of(names, key).len() > 0,
    decreases names.len(),
{
    if names.last() != key {
        let k = choose|k: int| 0 <= k < names.len() && names[k] == key;
        assert(names.drop_last()[k] == key);
        lemma_positions_present(names.drop_last(), key);
    }
}

proof fn lemma_positions_absent(names: Seq<Seq<char>>, key: Seq<char>)
    requires
        forall|k: int|
            0 <= k < first_occurrences(names).len() ==> first_occurrences(names)[k] != key,
    ensures
        positions_of(names, key) == Seq::<usize>::empty(),
    decreases names.len(),
{
    if names.len() > 0 {
        lemma_first_occurrences_contains(names, key);
        assert(!first_occurrences(names).contains(key));
        assert(!names.contains(key));
        assert(names[names.len() - 1] != key);
        lemma_first_occurrences_contains(names.drop_last(), key);
        assert(!names.drop_last().contains(key)) by {
            if names.drop_last().contains(key) {
                let k = choose|k: int| 0 <= k < names.drop_last().len() && names.drop_last()[k] == key;
                assert(names[k] == key);
            }
        }
        assert forall|k: int|
            0 <= k < first_occurrences(names.drop_last()).len() implies first_occurrences(
            names.drop_last(),
        )[k] != key by {
            if first_occurrences(names.drop_last())[k] == key {
                assert(first_occurrences(names.drop_last()).contains(key));
            }
        }
        lemma_positions_absent(names.drop_last(), key);
    }
}

proof fn lemma_first_occurrences_distinct(names: Seq<Seq<char>>)
    ensures
        forall|a: int, b: int|
            0 <= a < b < first_occurrences(names).len() ==> first_occurrences(names)[a]
                != first_occurrences(names)[b],
    decreases names.len(),
{
    if names.len() > 0 {
        lemma_first_occurrences_distinct(names.drop_last());
        let f = first_occurrences(names.drop_last());
        if !f.contains(names.last()) {
            assert forall|a: int, b: int|
                0 <= a < b < f.push(names.last()).len() implies f.push(names.last())[a] != f.push(
                names.last(),
            )[b] by {
                if b == f.len() {
                    assert(f.push(names.last())[a] == f[a]);
                } else {
                    assert(f.push(names.last())[a] == f[a]);
                    assert(f.push(names.last())[b] == f[b]);
                }
            }
        }
    }
}

/// Where a run stands, as shown by `forge ls`.
pub open spec fn progress_label(run: PipelineRun) -> Seq<char> {
    if run.current_stage < run.stages@.len() {
        "stage "@ + decimal((run.current_stage + 1) as nat) + "/"@ + decimal(run.stages@.len())
            + " ("@ + run.stages@[run.current_stage as int].name@ + ")"@
    } else {
        "complete"@
    }
}

/// Describes where a run stands: `stage N/M (name)`, or `complete`.
pub fn run_progress(run: &PipelineRun) -> (r: String)
    ensures
        r@ == progress_label(*run),
{
    let n = run.stages.len();
    if run.current_stage < n {
        let mut v = chars_of("stage ");
        append_chars(&mut v, &decimal_chars(run.current_stage + 1));
        append_chars(&mut v, &chars_of("/"));
        append_chars(&mut v, &decimal_chars(n));
        append_chars(&mut v, &chars_of(" ("));
        append_chars(&mut v, &chars_of(run.stages[run.current_stage].name.as_str()));
        append_chars(&mut v, &chars_of(")"));
        string_from_chars(&v)
    } else {
        to_owned_string("complete")
    }
}

/// A run still open in its workspace: unpacked or in progress.
pub open spec fn is_active(s: RunStatus) -> bool {
    s == RunStatus::Unpacked || s == RunStatus::InProgress
}

/// The first active run among `runs`.
pub fn find_active_run(runs: &Vec<PipelineRun>) -> (r: Option<usize>)
    ensures
        r matches Some(i) ==> i < runs@.len() && is_active(runs@[i as int].status) && forall|j: int|
            0 <= j < i ==> !is_active(#[trigger] runs@[j].status),
        r is None ==> forall|j: int| 0 <= j < runs@.len() ==> !is_active(#[trigger] runs@[j].status),
{
    let mut i: usize = 0;
    while i < runs.len()
        invariant
            i <= runs@.len(),
            forall|j: int| 0 <= j < i ==> !is_active(#[trigger] runs@[j].status),
        decreases runs@.len() - i,
    {
        let st = runs[i].status;
        if st == RunStatus::Unpacked || st == RunStatus::InProgress {
            return Some(i);
        }
        i = i + 1;
    }
    None
}

// ---------------------------------------------------------------------------
// Run and pipeline summaries
// ---------------------------------------------------------------------------

/// The first `k` characters of `s` take exactly `bytes` bytes in UTF-8.
pub open spec fn byte_prefix(s: Seq<char>, bytes: nat, k: int) -> bool {
    0 <= k <= s.len() && utf8_len(s.take(k)) == bytes
}

proof fn lemma_utf8_len_prefix_grows(s: Seq<char>, i: int, k: int)
    requires
        0 <= i <= k <= s.len(),
    ensures
        utf8_len(s.take(i)) + (k - i) <= utf8_len(s.take(k)),
{
    assert(s.take(k) =~= s.take(i) + s.subrange(i, k));
    lemma_utf8_len_concat(s.take(i), s.subrange(i, k));
    lemma_utf8_len_bounds(s.subrange(i, k));
}

/// The short form of a run identifier: its first eight bytes (`&id[..8]`).
/// The identifier must have a character boundary at its eighth byte.
pub fn short_id(id: &str) -> (r: String)
    requires
        exists|k: int| byte_prefix(id@, 8, k),
    ensures
        exists|k: int| byte_prefix(id@, 8, k) && r@ == id@.take(k),
{
    let ghost kk = choose|k: int| byte_prefix(id@, 8, k);
    let v = chars_of(id);
    let mut out: Vec<char> = Vec::new();
    let mut n: u128 = 0;
    let mut i: usize = 0;
    while i < v.len() && n < 8
        invariant
            v@ == id@,
            byte_prefix(id@, 8, kk),
            i <= v@.len(),
            i <= kk,
            n == utf8_len(v@.take(i as int)),
            out@ == v@.take(i as int),
        decreases v@.len() - i,
    {
        proof {
            lemma_utf8_len_prefix_grows(v@, i as int, kk);
            assert(v@.take(i as int + 1) =~= v@.take(i as int) + seq![v@[i as int]]);
            lemma_utf8_len_concat(v@.take(i as int), seq![v@[i as int]]);
            assert(seq![v@[i as int]].drop_first() =~= Seq::<char>::empty());
            assert(utf8_len(seq![v@[i as int]]) == char_utf8_len(v@[i as int]) + utf8_len(
                Seq::<char>::empty(),
            ));
        }
        n = n + char_byte_len(v[i]);
        out.push(v[i]);
        i = i + 1;
        proof {
            assert(out@ =~= v@.take(i as int));
            if i > kk {
                lemma_utf8_len_prefix_grows(v@, kk, i as int);
            }
        }
    }
    proof {
        if n < 8 {
            lemma_utf8_len_prefix_grows(v@, i as int, kk);
        } else if i < kk {
            lemma_utf8_len_prefix_grows(v@, i as int, kk);
        }
        assert(byte_prefix(id@, 8, i as int));
    }
    string_from_chars(&out)
}

/// What chrono gives for a millisecond timestamp formatted as
/// `%Y-%m-%d %H:%M` in UTC, or `None` when the timestamp is out of chrono's
/// range.
pub uninterp spec fn utc_minute_stamp(ms: i64) -> Option<Seq<char>>;

/// `chrono::DateTime::from_timestamp_millis(ms)` formatted with
/// `"%Y-%m-%d %H:%M"`.
///
/// Trusted: the result is named `utc_minute_stamp` of the timestamp; the
/// calendar arithmetic and chrono's range are not restated here.
#[verifier::external_body]
fn format_utc_minutes(ms: i64) -> (r: Option<String>)
    ensures
        r matches Some(s) ==> utc_minute_stamp(ms) == Some(s@),
        r is None ==> utc_minute_stamp(ms) is None,
{
    match chrono::DateTime::from_timestamp_millis(ms) {
        Some(dt) => Some(dt.format("%Y-%m-%d %H:%M").to_string()),
        None => None,
    }
}

/// How a run's last update is shown in the history: the formatted time, or
/// `unknown` when there is none.
pub fn timestamp_label(stamp: Option<String>) -> (r: String)
    ensures
        r@ == match stamp {
            Some(s) => s@,
            None => "unknown"@,
        },
{
    match stamp {
        Some(s) => s,
        None => to_owned_string("unknown"),
    }
}

/// The time of a millisecond timestamp as shown in the history.
pub fn history_timestamp(ms: i64) -> (r: String)
    ensures
        r@ == match utc_minute_stamp(ms) {
            Some(s) => s,
            None => "unknown"@,
        },
{
    timestamp_label(format_utc_minutes(ms))
}

/// The noun for a number of stages: `stage` for one, `stages` otherwise.
pub fn stage_noun(count: usize) -> (r: String)
    ensures
        r@ == (if count == 1 {
            "stage"@
        } else {
            "stages"@
        }),
{
    if count == 1 {
        to_owned_string("stage")
    } else {
        to_owned_string("stages")
    }
}

/// Where a pipeline's final output goes, as shown: destination, `/`, file
/// name template.
pub fn output_location(destination: &str, filename: &str) -> (r: String)
    ensures
        r@ == destination@ + "/"@ + filename@,
{
    let mut v = chars_of(destination);
    append_chars(&mut v, &chars_of("/"));
    append_chars(&mut v, &chars_of(filename));
    string_from_chars(&v)
}

/// Whether stage `i` is marked as the one the run stands at: it is the
/// current stage and the run is not completed.
pub fn is_current_stage(run: &PipelineRun, i: usize) -> (b: bool)
    ensures
        b == (i == run.current_stage && run.status != RunStatus::Completed),
{
    i == run.current_stage && run.status != RunStatus::Completed
}

/// Whether a stage is shown under a stage filter: every stage without a
/// filter, only the filtered position with one.
pub fn stage_shown(filter: Option<usize>, i: usize) -> (b: bool)
    ensures
        b == match filter {
            Some(f) => f == i,
            None => true,
        },
{
    match filter {
        Some(f) => f == i,
        None => true,
    }
}

// ---------------------------------------------------------------------------
// Laws of word wrapping
// ---------------------------------------------------------------------------

proof fn lemma_words_nonempty(s: Seq<char>, cur: Seq<char>)
    ensures
        forall|k: int|
            0 <= k < words_from(s, cur).len() ==> (#[trigger] words_from(s, cur)[k]).len() > 0,
    decreases s.len(),
{
    if s.len() > 0 {
        if unicode_white_space(s[0]) {
            lemma_words_nonempty(s.drop_first(), seq![]);
            let head: Seq<Seq<char>> = if cur.len() == 0 {
                seq![]
            } else {
                seq![cur]
            };
            let tail = words_from(s.drop_first(), seq![]);
            assert(words_from(s, cur) == head + tail);
            assert forall|k: int| 0 <= k < (head + tail).len() implies (#[trigger] (head + tail)[
                k
            ]).len() > 0 by {
                if k >= head.len() {
                    assert((head + tail)[k] == tail[k - head.len()]);
                }
            }
        } else {
            lemma_words_nonempty(s.drop_first(), cur.push(s[0]));
            assert(words_from(s, cur) == words_from(s.drop_first(), cur.push(s[0])));
        }
    } else {
        if cur.len() > 0 {
            assert(words_from(s, cur) == seq![cur]);
        }
    }
}

proof fn lemma_join_cons(x: Seq<char>, r: Seq<Seq<char>>, sep: Seq<char>)
    ensures
        join(seq![x] + r, sep) == (if r.len() == 0 {
            x
        } else {
            x + sep + join(r, sep)
        }),
    decreases r.len(),
{
    if r.len() == 0 {
        assert(seq![x] + r =~= seq![x]);
    } else {
        let xr = seq![x] + r;
        assert(xr.drop_last() =~= seq![x] + r.drop_last());
        assert(xr.last() == r.last());
        lemma_join_cons(x, r.drop_last(), sep);
        if r.len() == 1 {
            assert(r.drop_last().len() == 0);
            assert(join(r, sep) == r[0]);
        } else {
            assert((x + sep + join(r.drop_last(), sep)) + sep + r.last() =~= x + sep + (join(
                r.drop_last(),
                sep,
            ) + sep + r.last()));
        }
    }
}

proof fn lemma_greedy_nonempty(ws: Seq<Seq<char>>, width: nat, cur: Seq<char>)
    requires
        cur.len() > 0,
    ensures
        greedy(ws, width, cur).len() > 0,
    decreases ws.len(),
{
    if ws.len() > 0 {
        if utf8_len(cur) + 1 + utf8_len(ws[0]) <= width {
            lemma_greedy_nonempty(ws.drop_first(), width, cur + seq![' '] + ws[0]);
        }
    }
}

proof fn lemma_greedy_join(ws: Seq<Seq<char>>, width: nat, cur: Seq<char>)
    requires
        forall|k: int| 0 <= k < ws.len() ==> (#[trigger] ws[k]).len() > 0,
    ensures
        cur.len() > 0 ==> join(greedy(ws, width, cur), " "@) == join(seq![cur] + ws, " "@),
        cur.len() == 0 ==> join(greedy(ws, width, cur), " "@) == join(ws, " "@),
    decreases ws.len(),
{
    let sp = " "@;
    if ws.len() == 0 {
        if cur.len() > 0 {
            assert(seq![cur] + ws =~= seq![cur]);
        }
    } else {
        let rest = ws.drop_first();
        assert forall|k: int| 0 <= k < rest.len() implies (#[trigger] rest[k]).len() > 0 by {
            assert(rest[k] == ws[k + 1]);
        }
        assert(ws[0].len() > 0);
        assert(seq![ws[0]] + rest =~= ws);
        if cur.len() == 0 {
            lemma_greedy_join(rest, width, ws[0]);
        } else if utf8_len(cur) + 1 + utf8_len(ws[0]) <= width {
            let merged = cur + seq![' '] + ws[0];
            lemma_greedy_join(rest, width, merged);
            lemma_join_cons(merged, rest, sp);
            lemma_join_cons(cur, ws, sp);
            lemma_join_cons(ws[0], rest, sp);
            reveal_strlit(" ");
            assert(sp =~= seq![' ']);
            if rest.len() == 0 {
                assert(cur + sp + ws[0] =~= merged);
            } else {
                assert(merged + sp + join(rest, sp) =~= cur + sp + (ws[0] + sp + join(rest, sp)));
            }
        } else {
            let g = greedy(rest, width, ws[0]);
            lemma_greedy_join(rest, width, ws[0]);
            lemma_greedy_nonempty(rest, width, ws[0]);
            lemma_join_cons(cur, g, sp);
            lemma_join_cons(cur, ws, sp);
        }
    }
}

/// Wrapping loses no word: when the text is wrapped, its lines joined by
/// single spaces are its words joined by single spaces.
pub proof fn law_wrap_keeps_every_word(text: Seq<char>, width: nat)
    requires
        width > 0,
        utf8_len(text) > width,
    ensures
        join(wrapped(text, width), " "@) == join(words(text), " "@),
{
    lemma_words_nonempty(text, seq![]);
    lemma_greedy_join(words(text), width, seq![]);
    if greedy(words(text), width, seq![]).len() == 0 {
        assert(join(seq![Seq::<char>::empty()], " "@) == Seq::<char>::empty());
    }
}

proof fn lemma_greedy_fits(ws: Seq<Seq<char>>, width: nat, cur: Seq<char>, all: Seq<Seq<char>>)
    requires
        forall|k: int| 0 <= k < ws.len() ==> all.contains(#[trigger] ws[k]),
        cur.len() == 0 || utf8_len(cur) <= width || all.contains(cur),
    ensures
        forall|k: int|
            0 <= k < greedy(ws, width, cur).len() ==> utf8_len(#[trigger] greedy(ws, width, cur)[k])
                <= width || all.contains(greedy(ws, width, cur)[k]),
    decreases ws.len(),
{
    if ws.len() > 0 {
        let rest = ws.drop_first();
        assert forall|k: int| 0 <= k < rest.len() implies all.contains(#[trigger] rest[k]) by {
            assert(rest[k] == ws[k + 1]);
        }
        assert(all.contains(ws[0]));
        if cur.len() == 0 {
            lemma_greedy_fits(rest, width, ws[0], all);
            assert(greedy(ws, width, cur) == greedy(rest, width, ws[0]));
        } else if utf8_len(cur) + 1 + utf8_len(ws[0]) <= width {
            let merged = cur + seq![' '] + ws[0];
            assert(greedy(ws, width, cur) == greedy(rest, width, merged));
            lemma_utf8_len_concat(cur, seq![' ']);
            lemma_utf8_len_concat(cur + seq![' '], ws[0]);
            assert(utf8_len(seq![' ']) == 1) by {
                reveal_with_fuel(utf8_len, 2);
            }
            lemma_greedy_fits(rest, width, merged, all);
        } else {
            lemma_greedy_fits(rest, width, ws[0], all);
            let g = greedy(rest, width, ws[0]);
            assert(greedy(ws, width, cur) == seq![cur] + g);
            assert forall|k: int| 0 <= k < (seq![cur] + g).len() implies utf8_len(
                #[trigger] (seq![cur] + g)[k],
            ) <= width || all.contains((seq![cur] + g)[k]) by {
                if k > 0 {
                    assert((seq![cur] + g)[k] == g[k - 1]);
                }
            }
        }
    } else {
        if cur.len() > 0 {
            assert(greedy(ws, width, cur) == seq![cur]);
        }
    }
}

/// Wrapping respects the width: with a positive width, every line fits in it
/// or is a single word too long to fit on any line.
pub proof fn law_wrap_lines_fit(text: Seq<char>, width: nat)
    requires
        width > 0,
    ensures
        forall|k: int|
            0 <= k < wrapped(text, width).len() ==> utf8_len(#[trigger] wrapped(text, width)[k])
                <= width || words(text).contains(wrapped(text, width)[k]),
{
    if utf8_len(text) > width {
        let ws = words(text);
        assert forall|k: int| 0 <= k < ws.len() implies ws.contains(#[trigger] ws[k]) by {}
        lemma_greedy_fits(ws, width, seq![], ws);
        if greedy(ws, width, seq![]).len() == 0 {
            assert(utf8_len(Seq::<char>::empty()) == 0);
        }
    }
}

/// `line` begins with the word `w`: it is `w`, or `w` followed by a space.
pub open spec fn leads_with(line: Seq<char>, w: Seq<char>) -> bool {
    &&& w.len() <= line.len()
    &&& line.subrange(0, w.len() as int) == w
    &&& (line.len() == w.len() || line[w.len() as int] == ' ')
}

proof fn lemma_greedy_head(ws: Seq<Seq<char>>, width: nat, cur: Seq<char>)
    requires
        cur.len() > 0,
    ensures
        greedy(ws, width, cur).len() > 0,
        leads_with(greedy(ws, width, cur)[0], cur),
    decreases ws.len(),
{
    lemma_greedy_nonempty(ws, width, cur);
    if ws.len() == 0 {
        assert(cur.subrange(0, cur.len() as int) =~= cur);
    } else if utf8_len(cur) + 1 + utf8_len(ws[0]) <= width {
        let merged = cur + seq![' '] + ws[0];
        lemma_greedy_head(ws.drop_first(), width, merged);
        let line = greedy(ws.drop_first(), width, merged)[0];
        assert(greedy(ws, width, cur) == greedy(ws.drop_first(), width, merged));
        assert(line.subrange(0, merged.len() as int) == merged);
        assert(line.subrange(0, cur.len() as int) =~= merged.subrange(0, cur.len() as int));
        assert(merged.subrange(0, cur.len() as int) =~= cur);
        assert(line[cur.len() as int] == line.subrange(0, merged.len() as int)[cur.len() as int]);
        assert(merged[cur.len() as int] == ' ');
    } else {
        assert(greedy(ws, width, cur) == seq![cur] + greedy(ws.drop_first(), width, ws[0]));
        assert(cur.subrange(0, cur.len() as int) =~= cur);
    }
}

/// Each line after the first begins with a word of `all` that would not
/// have fitted on the line before.
pub open spec fn filled(g: Seq<Seq<char>>, width: nat, all: Seq<Seq<char>>) -> bool {
    forall|i: int|
        0 <= i < g.len() - 1 ==> exists|w: Seq<char>|
            #[trigger] all.contains(w) && leads_with(g[i + 1], w) && utf8_len(#[trigger] g[i]) + 1
                + utf8_len(w) > width
}

proof fn lemma_greedy_maximal(ws: Seq<Seq<char>>, width: nat, cur: Seq<char>, all: Seq<Seq<char>>)
    requires
        forall|k: int| 0 <= k < ws.len() ==> all.contains(#[trigger] ws[k]),
        forall|k: int| 0 <= k < ws.len() ==> (#[trigger] ws[k]).len() > 0,
    ensures
        filled(greedy(ws, width, cur), width, all),
    decreases ws.len(),
{
    if ws.len() > 0 {
        let rest = ws.drop_first();
        assert forall|k: int| 0 <= k < rest.len() implies all.contains(#[trigger] rest[k]) by {
            assert(rest[k] == ws[k + 1]);
        }
        assert forall|k: int| 0 <= k < rest.len() implies (#[trigger] rest[k]).len() > 0 by {
            assert(rest[k] == ws[k + 1]);
        }
        assert(all.contains(ws[0]));
        assert(ws[0].len() > 0);
        if cur.len() == 0 {
            lemma_greedy_maximal(rest, width, ws[0], all);
            assert(greedy(ws, width, cur) == greedy(rest, width, ws[0]));
        } else if utf8_len(cur) + 1 + utf8_len(ws[0]) <= width {
            let merged = cur + seq![' '] + ws[0];
            lemma_greedy_maximal(rest, width, merged, all);
            assert(greedy(ws, width, cur) == greedy(rest, width, merged));
        } else {
            let g = greedy(rest, width, ws[0]);
            lemma_greedy_maximal(rest, width, ws[0], all);
            lemma_greedy_head(rest, width, ws[0]);
            let h = seq![cur] + g;
            assert(greedy(ws, width, cur) == h);
            assert forall|i: int| 0 <= i < h.len() - 1 implies exists|w: Seq<char>|
                #[trigger] all.contains(w) && leads_with(h[i + 1], w) && utf8_len(#[trigger] h[i]) + 1
                    + utf8_len(w) > width by {
                assert(h[i + 1] == g[i]);
                if i == 0 {
                    assert(h[0] == cur);
                    assert(all.contains(ws[0]) && leads_with(h[1], ws[0]));
                } else {
                    assert(h[i] == g[i - 1]);
                    assert(0 <= i - 1 < g.len() - 1);
                    let w = choose|w: Seq<char>|
                        #[trigger] all.contains(w) && leads_with(g[(i - 1) + 1], w) && utf8_len(
                            g[i - 1],
                        ) + 1 + utf8_len(w) > width;
                    assert(all.contains(w) && leads_with(h[i + 1], w));
                }
            }
        }
    }
}

/// Wrapping fills each line as far as it goes: every line after the first
/// begins with a word of the text that would not have fitted (after one
/// space) on the line before.
pub proof fn law_wrap_fills_lines(text: Seq<char>, width: nat)
    ensures
        filled(wrapped(text, width), width, words(text)),
{
    if width > 0 && utf8_len(text) > width {
        let ws = words(text);
        lemma_words_nonempty(text, seq![]);
        assert forall|k: int| 0 <= k < ws.len() implies ws.contains(#[trigger] ws[k]) by {}
        lemma_greedy_maximal(ws, width, seq![], ws);
    }
}

/// A word: non-empty, without whitespace.
pub open spec fn word_like(w: Seq<char>) -> bool {
    w.len() > 0 && forall|k: int| 0 <= k < w.len() ==> !unicode_white_space(#[trigger] w[k])
}

/// Words joined by single spaces: non-empty, no whitespace at either end,
/// and every whitespace character is a space followed by a non-whitespace
/// character.
pub open spec fn single_spaced(l: Seq<char>) -> bool {
    &&& l.len() > 0
    &&& !unicode_white_space(l[0])
    &&& !unicode_white_space(l[l.len() - 1])
    &&& forall|k: int|
        0 <= k < l.len() && unicode_white_space(#[trigger] l[k]) ==> l[k] == ' ' && k + 1 < l.len()
            && !unicode_white_space(l[k + 1])
}

proof fn lemma_words_word_like(s: Seq<char>, cur: Seq<char>)
    requires
        forall|k: int| 0 <= k < cur.len() ==> !unicode_white_space(#[trigger] cur[k]),
    ensures
        forall|j: int| 0 <= j < words_from(s, cur).len() ==> word_like(#[trigger] words_from(s, cur)[j]),
    decreases s.len(),
{
    if cur.len() > 0 {
        assert(word_like(cur));
    }
    if s.len() == 0 {
        if cur.len() > 0 {
            assert(words_from(s, cur) == seq![cur]);
        }
    } else if unicode_white_space(s[0]) {
        lemma_words_word_like(s.drop_first(), seq![]);
        let head: Seq<Seq<char>> = if cur.len() == 0 {
            seq![]
        } else {
            seq![cur]
        };
        let tail = words_from(s.drop_first(), seq![]);
        assert(words_from(s, cur) == head + tail);
        assert forall|j: int| 0 <= j < (head + tail).len() implies word_like(#[trigger] (head + tail)[j]) by {
            if j >= head.len() {
                assert((head + tail)[j] == tail[j - head.len()]);
            } else {
                assert((head + tail)[j] == cur);
            }
        }
    } else {
        let c2 = cur.push(s[0]);
        assert forall|k: int| 0 <= k < c2.len() implies !unicode_white_space(#[trigger] c2[k]) by {
            if k < cur.len() {
                assert(c2[k] == cur[k]);
            }
        }
        lemma_words_word_like(s.drop_first(), c2);
        assert(words_from(s, cur) == words_from(s.drop_first(), c2));
    }
}

proof fn lemma_join_single_spaced(cur: Seq<char>, w: Seq<char>)
    requires
        single_spaced(cur),
        word_like(w),
    ensures
        single_spaced(cur + seq![' '] + w),
{
    let m = cur + seq![' '] + w;
    assert(m[0] == cur[0]);
    assert(m[m.len() - 1] == w[w.len() - 1]);
    assert(unicode_white_space(' '));
    assert forall|k: int| 0 <= k < m.len() && unicode_white_space(#[trigger] m[k]) implies m[k]
        == ' ' && k + 1 < m.len() && !unicode_white_space(m[k + 1]) by {
        if k < cur.len() {
            assert(m[k] == cur[k]);
            if k + 1 < cur.len() {
                assert(m[k + 1] == cur[k + 1]);
            }
        } else if k == cur.len() {
            assert(m[k + 1] == w[0]);
        } else {
            assert(m[k] == w[k - cur.len() - 1]);
        }
    }
}

proof fn lemma_greedy_single_spaced(ws: Seq<Seq<char>>, width: nat, cur: Seq<char>)
    requires
        forall|k: int| 0 <= k < ws.len() ==> word_like(#[trigger] ws[k]),
        cur.len() == 0 || single_spaced(cur),
    ensures
        forall|k: int|
            0 <= k < greedy(ws, width, cur).len() ==> single_spaced(#[trigger] greedy(ws, width, cur)[k]),
    decreases ws.len(),
{
    if ws.len() > 0 {
        let rest = ws.drop_first();
        assert forall|k: int| 0 <= k < rest.len() implies word_like(#[trigger] rest[k]) by {
            assert(rest[k] == ws[k + 1]);
        }
        assert(word_like(ws[0]));
        assert(single_spaced(ws[0]));
        if cur.len() == 0 {
            lemma_greedy_single_spaced(rest, width, ws[0]);
            assert(greedy(ws, width, cur) == greedy(rest, width, ws[0]));
        } else if utf8_len(cur) + 1 + utf8_len(ws[0]) <= width {
            lemma_join_single_spaced(cur, ws[0]);
            lemma_greedy_single_spaced(rest, width, cur + seq![' '] + ws[0]);
            assert(greedy(ws, width, cur) == greedy(rest, width, cur + seq![' '] + ws[0]));
        } else {
            let g = greedy(rest, width, ws[0]);
            lemma_greedy_single_spaced(rest, width, ws[0]);
            assert(greedy(ws, width, cur) == seq![cur] + g);
            assert forall|k: int| 0 <= k < (seq![cur] + g).len() implies single_spaced(
                #[trigger] (seq![cur] + g)[k],
            ) by {
                if k > 0 {
                    assert((seq![cur] + g)[k] == g[k - 1]);
                }
            }
        }
    } else if cur.len() > 0 {
        assert(greedy(ws, width, cur) == seq![cur]);
    }
}

/// When text is wrapped and has words, each line is words joined by single
/// spaces: no whitespace at its ends, and only single spaces between words.
pub proof fn law_wrap_lines_single_spaced(text: Seq<char>, width: nat)
    requires
        width > 0,
        utf8_len(text) > width,
        words(text).len() > 0,
    ensures
        forall|k: int|
            0 <= k < wrapped(text, width).len() ==> single_spaced(#[trigger] wrapped(text, width)[k]),
{
    let ws = words(text);
    lemma_words_word_like(text, seq![]);
    lemma_greedy_single_spaced(ws, width, seq![]);
    assert(word_like(ws[0]));
    lemma_greedy_nonempty(ws.drop_first(), width, ws[0]);
    assert(greedy(ws, width, seq![]) == greedy(ws.drop_first(), width, ws[0]));
}

/// A pattern always matches the name it was taken from.
pub proof fn law_name_matches_itself(name: Seq<char>)
    ensures
        pipeline_matches(name, name),
{
    let l = unicode_lowercase(name);
    assert(l.subrange(0, l.len() as int) =~= l);
    assert(crate::text::occurs_at(l, l, 0));
}

} // verus!
