//! Pipeline definitions: an ordered map of stages plus output settings.

use indexmap::IndexMap;
use vstd::prelude::*;

use crate::error::ForgeError;

verus! {

#[verifier::external_type_specification]
#[verifier::external_body]
#[verifier::reject_recursive_types(K)]
#[verifier::reject_recursive_types(V)]
#[verifier::reject_recursive_types(S)]
pub struct ExIndexMap<K, V, S>(IndexMap<K, V, S>);

/// Stages keyed by name, in definition order.
pub type StageMap = IndexMap<String, Stage>;

/// One step of a pipeline: a command fed the composed context on stdin.
#[derive(Debug, Clone)]
pub struct Stage {
    pub name: String,
    pub description: String,
    pub command: String,
    pub args: Vec<String>,
    pub references: Vec<String>,
    pub review: bool,
}

/// Mathematical model of a [`Stage`].
pub struct StageView {
    pub name: Seq<char>,
    pub description: Seq<char>,
    pub command: Seq<char>,
    pub args: Seq<Seq<char>>,
    pub references: Seq<Seq<char>>,
    pub review: bool,
}

impl View for Stage {
    type V = StageView;

    open spec fn view(&self) -> StageView {
        StageView {
            name: self.name@,
            description: self.description@,
            command: self.command@,
            args: self.args.deep_view(),
            references: self.references.deep_view(),
            review: self.review,
        }
    }
}

/// Where the final output of a run is written.
#[derive(Debug, Clone)]
pub struct OutputConfig {
    pub destination: String,
    pub filename: String,
}

/// A pipeline definition.
#[derive(Debug)]
pub struct Pipeline {
    pub name: String,
    pub description: String,
    pub output: OutputConfig,
    pub references: Vec<String>,
    pub stages: StageMap,
}

/// A stage with its key, borrowed from a stage map.
pub type StageEntry<'a> = Option<(&'a String, &'a Stage)>;

/// The entries of a stage map, in order: each key with its stage's model.
pub uninterp spec fn stage_entries(m: IndexMap<String, Stage>) -> Seq<(Seq<char>, StageView)>;

/// Number of stages (`IndexMap::len`).
///
/// Trusted: the result is the number of entries of the map.
#[verifier::external_body]
pub(crate) fn stage_count(m: &StageMap) -> (n: usize)
    ensures
        n == stage_entries(*m).len(),
{
    m.len()
}

/// The stage at position `i` with its key (`IndexMap::get_index`).
///
/// Trusted: `Some` of the `i`-th entry when `i` is below the length, `None`
/// otherwise.
#[verifier::external_body]
pub(crate) fn stage_at<'a>(m: &'a StageMap, i: usize) -> (r: StageEntry<'a>)
    ensures
        i < stage_entries(*m).len() ==> r is Some,
        r matches Some(e) ==> e.0@ == stage_entries(*m)[i as int].0,
        r matches Some(e) ==> e.1@ == stage_entries(*m)[i as int].1,
        i >= stage_entries(*m).len() ==> r is None,
{
    m.get_index(i)
}

/// Position of the stage keyed `key` (`IndexMap::get_index_of`).
///
/// Trusted: keys of an `IndexMap` are unique, so `Some(i)` names the only
/// entry with that key; `None` when no entry has it.
#[verifier::external_body]
pub(crate) fn stage_position(m: &StageMap, key: &str) -> (r: Option<usize>)
    ensures
        r matches Some(i) ==> i < stage_entries(*m).len() && stage_entries(*m)[i as int].0 == key@
            && forall|j: int|
            0 <= j < stage_entries(*m).len() && j != i ==> stage_entries(*m)[j].0 != key@,
        r is None ==> forall|j: int|
            0 <= j < stage_entries(*m).len() ==> stage_entries(*m)[j].0 != key@,
{
    m.get_index_of(key)
}

/// A stage entry is acceptable: non-empty key and non-empty command.
pub open spec fn stage_entry_ok(e: (Seq<char>, StageView)) -> bool {
    e.0.len() > 0 && e.1.command.len() > 0
}

/// Position of the first unacceptable entry at or after `i` (the length when
/// there is none).
pub open spec fn first_bad_entry_from(es: Seq<(Seq<char>, StageView)>, i: int) -> int
    decreases es.len() - i,
{
    if i >= es.len() {
        es.len() as int
    } else if !stage_entry_ok(es[i]) {
        i
    } else {
        first_bad_entry_from(es, i + 1)
    }
}

/// Position of the first unacceptable entry (the length when there is none).
pub open spec fn first_bad_entry(es: Seq<(Seq<char>, StageView)>) -> int {
    first_bad_entry_from(es, 0)
}

proof fn lemma_first_bad_entry_from(es: Seq<(Seq<char>, StageView)>, i: int)
    requires
        0 <= i <= es.len(),
    ensures
        i <= first_bad_entry_from(es, i) <= es.len(),
        forall|j: int| i <= j < first_bad_entry_from(es, i) ==> stage_entry_ok(#[trigger] es[j]),
        first_bad_entry_from(es, i) < es.len() ==> !stage_entry_ok(
            es[first_bad_entry_from(es, i)],
        ),
    decreases es.len() - i,
{
    if i < es.len() && stage_entry_ok(es[i]) {
        lemma_first_bad_entry_from(es, i + 1);
    }
}

/// Consecutive duplicates removed (`Vec::dedup`): an element is kept when it
/// differs from the one just before it.
pub open spec fn dedup_consecutive(s: Seq<Seq<char>>) -> Seq<Seq<char>>
    decreases s.len(),
{
    if s.len() == 0 {
        s
    } else if s.len() >= 2 && s.last() == s[s.len() - 2] {
        dedup_consecutive(s.drop_last())
    } else {
        dedup_consecutive(s.drop_last()).push(s.last())
    }
}

proof fn lemma_dedup_last(s: Seq<Seq<char>>)
    requires
        s.len() > 0,
    ensures
        dedup_consecutive(s).len() > 0,
        dedup_consecutive(s).last() == s.last(),
    decreases s.len(),
{
    if s.len() >= 2 && s.last() == s[s.len() - 2] {
        lemma_dedup_last(s.drop_last());
    }
}

/// `dedup_consecutive` keeps exactly the elements it was given.
pub proof fn lemma_dedup_same_elements(s: Seq<Seq<char>>)
    ensures
        forall|x: Seq<char>| dedup_consecutive(s).contains(x) <==> s.contains(x),
    decreases s.len(),
{
    if s.len() > 0 {
        let d = dedup_consecutive(s.drop_last());
        lemma_dedup_same_elements(s.drop_last());
        assert forall|x: Seq<char>| dedup_consecutive(s).contains(x) <==> s.contains(x) by {
            if s.contains(x) {
                let k = choose|k: int| 0 <= k < s.len() && s[k] == x;
                if k < s.len() - 1 {
                    assert(s.drop_last()[k] == x);
                    assert(s.drop_last().contains(x));
                    assert(d.contains(x));
                    if s.len() >= 2 && s.last() == s[s.len() - 2] {
                    } else {
                        let j = choose|j: int| 0 <= j < d.len() && d[j] == x;
                        assert(d.push(s.last())[j] == x);
                    }
                } else {
                    if s.len() >= 2 && s.last() == s[s.len() - 2] {
                        assert(s.drop_last()[s.len() - 2] == x);
                        assert(s.drop_last().contains(x));
                    } else {
                        assert(d.push(s.last())[d.len() as int] == x);
                    }
                }
            }
            if dedup_consecutive(s).contains(x) {
                if s.len() >= 2 && s.last() == s[s.len() - 2] {
                    assert(dedup_consecutive(s) == d);
                    assert(s.drop_last().contains(x));
                    let k = choose|k: int| 0 <= k < s.drop_last().len() && s.drop_last()[k] == x;
                    assert(s[k] == x);
                } else {
                    let j = choose|j: int|
                        0 <= j < d.push(s.last()).len() && d.push(s.last())[j] == x;
                    if j < d.len() {
                        assert(d[j] == x);
                        assert(d.contains(x));
                        assert(s.drop_last().contains(x));
                        let k = choose|k: int|
                            0 <= k < s.drop_last().len() && s.drop_last()[k] == x;
                        assert(s[k] == x);
                    } else {
                        assert(s[s.len() - 1] == x);
                    }
                }
            }
        }
    }
}

/// No two neighbours of `dedup_consecutive(s)` are equal.
pub proof fn lemma_dedup_no_neighbours(s: Seq<Seq<char>>)
    ensures
        forall|k: int|
            0 < k < dedup_consecutive(s).len() ==> #[trigger] dedup_consecutive(s)[k]
                != dedup_consecutive(s)[k - 1],
    decreases s.len(),
{
    if s.len() > 0 {
        lemma_dedup_no_neighbours(s.drop_last());
        let d = dedup_consecutive(s.drop_last());
        if s.len() >= 2 {
            lemma_dedup_last(s.drop_last());
        }
        if !(s.len() >= 2 && s.last() == s[s.len() - 2]) {
            assert forall|k: int|
                0 < k < d.push(s.last()).len() implies #[trigger] d.push(s.last())[k] != d.push(
                s.last(),
            )[k - 1] by {
                if k < d.len() {
                    assert(d.push(s.last())[k] == d[k]);
                    assert(d.push(s.last())[k - 1] == d[k - 1]);
                } else {
                    assert(d.last() == s.drop_last().last());
                }
            }
        }
    }
}

/// The references a stage sees: global, then pipeline-level, then the
/// stage's own (when the index names a stage).
pub open spec fn layered_references(
    global: Seq<Seq<char>>,
    pipeline_refs: Seq<Seq<char>>,
    es: Seq<(Seq<char>, StageView)>,
    stage_index: int,
) -> Seq<Seq<char>> {
    global + pipeline_refs + (if 0 <= stage_index < es.len() {
        es[stage_index].1.references
    } else {
        seq![]
    })
}

/// Appends `x` unless it equals the last element of `out`.
pub(crate) fn push_dedup(out: &mut Vec<String>, x: &String, Ghost(src): Ghost<Seq<Seq<char>>>)
    requires
        old(out).deep_view() == dedup_consecutive(src),
    ensures
        final(out).deep_view() == dedup_consecutive(src.push(x@)),
{
    proof {
        if src.len() > 0 {
            lemma_dedup_last(src);
        }
        assert(src.push(x@).drop_last() =~= src);
    }
    let n = out.len();
    if n > 0 && out[n - 1] == *x {
        assert(src.len() > 0);
    } else {
        proof {
            if src.len() > 0 {
                assert(out.deep_view().last() == src.last());
                assert(out@[n - 1]@ != x@);
            }
        }
        out.push(x.clone());
        proof {
            assert(out.deep_view() =~= old(out).deep_view().push(x@));
        }
    }
}

/// Each distinct element once, at the position of its first occurrence
/// (later repeats are dropped).
pub open spec fn dedup_first(s: Seq<Seq<char>>) -> Seq<Seq<char>>
    decreases s.len(),
{
    if s.len() == 0 {
        s
    } else if dedup_first(s.drop_last()).contains(s.last()) {
        dedup_first(s.drop_last())
    } else {
        dedup_first(s.drop_last()).push(s.last())
    }
}

/// `dedup_first` keeps exactly the elements it was given, each once.
pub proof fn lemma_dedup_first(s: Seq<Seq<char>>)
    ensures
        forall|x: Seq<char>| dedup_first(s).contains(x) <==> s.contains(x),
        dedup_first(s).no_duplicates(),
    decreases s.len(),
{
    if s.len() > 0 {
        let p = s.drop_last();
        let l = s.last();
        let d = dedup_first(p);
        lemma_dedup_first(p);
        assert forall|x: Seq<char>| s.contains(x) <==> (p.contains(x) || x == l) by {
            if s.contains(x) {
                let k = choose|k: int| 0 <= k < s.len() && s[k] == x;
                if k < p.len() {
                    assert(p[k] == x);
                }
            }
            if p.contains(x) {
                let k = choose|k: int| 0 <= k < p.len() && p[k] == x;
                assert(s[k] == x);
            }
            if x == l {
                assert(s[s.len() - 1] == x);
            }
        }
        if !d.contains(l) {
            let e = d.push(l);
            assert forall|x: Seq<char>| e.contains(x) <==> (d.contains(x) || x == l) by {
                if e.contains(x) {
                    let k = choose|k: int| 0 <= k < e.len() && e[k] == x;
                    if k < d.len() {
                        assert(d[k] == x);
                    }
                }
                if d.contains(x) {
                    let k = choose|k: int| 0 <= k < d.len() && d[k] == x;
                    assert(e[k] == x);
                }
                if x == l {
                    assert(e[d.len() as int] == x);
                }
            }
            assert forall|i: int, j: int|
                0 <= i < e.len() && 0 <= j < e.len() && i != j implies e[i] != e[j] by {
                if i < d.len() && j < d.len() {
                    assert(e[i] == d[i] && e[j] == d[j]);
                } else if i < d.len() {
                    assert(e[i] == d[i]);
                    assert(d.contains(d[i]));
                } else {
                    assert(e[j] == d[j]);
                    assert(d.contains(d[j]));
                }
            }
        }
    }
}

/// Whether some element of `v` equals `x`.
fn contains_string(v: &Vec<String>, x: &String) -> (b: bool)
    ensures
        b == v.deep_view().contains(x@),
{
    let mut k: usize = 0;
    while k < v.len()
        invariant
            k <= v@.len(),
            forall|j: int| 0 <= j < k ==> v.deep_view()[j] != x@,
        decreases v@.len() - k,
    {
        if v[k] == *x {
            assert(v.deep_view()[k as int] == x@);
            return true;
        }
        k = k + 1;
    }
    false
}

/// Appends `x` unless `out` already holds it.
fn push_unique(out: &mut Vec<String>, x: &String, Ghost(src): Ghost<Seq<Seq<char>>>)
    requires
        old(out).deep_view() == dedup_first(src),
    ensures
        final(out).deep_view() == dedup_first(src.push(x@)),
{
    proof {
        assert(src.push(x@).drop_last() =~= src);
    }
    if !contains_string(out, x) {
        out.push(x.clone());
        proof {
            assert(out.deep_view() =~= old(out).deep_view().push(x@));
        }
    }
}

/// A stage sees every reference of its layers once and nothing else: a
/// reference is among those of stage `stage_index` exactly when it is global,
/// the pipeline's, or the stage's own, and no reference appears twice.
pub proof fn law_stage_sees_its_layers(
    global: Seq<Seq<char>>,
    pipeline_refs: Seq<Seq<char>>,
    es: Seq<(Seq<char>, StageView)>,
    stage_index: int,
)
    ensures
        forall|x: Seq<char>|
            dedup_first(layered_references(global, pipeline_refs, es, stage_index)).contains(x)
                <==> (global.contains(x) || pipeline_refs.contains(x) || (0 <= stage_index < es.len()
                && es[stage_index].1.references.contains(x))),
        dedup_first(layered_references(global, pipeline_refs, es, stage_index)).no_duplicates(),
{
    let own: Seq<Seq<char>> = if 0 <= stage_index < es.len() {
        es[stage_index].1.references
    } else {
        seq![]
    };
    let all = layered_references(global, pipeline_refs, es, stage_index);
    assert(all == global + pipeline_refs + own);
    lemma_dedup_first(all);
    assert forall|x: Seq<char>| all.contains(x) <==> (global.contains(x) || pipeline_refs.contains(x)
        || own.contains(x)) by {
        let gp = global + pipeline_refs;
        if all.contains(x) {
            let k = choose|k: int| 0 <= k < all.len() && all[k] == x;
            if k < global.len() {
                assert(global[k] == x);
            } else if k < gp.len() {
                assert(pipeline_refs[k - global.len()] == x);
            } else {
                assert(own[k - gp.len()] == x);
            }
        }
        if global.contains(x) {
            let k = choose|k: int| 0 <= k < global.len() && global[k] == x;
            assert(all[k] == x);
        }
        if pipeline_refs.contains(x) {
            let k = choose|k: int| 0 <= k < pipeline_refs.len() && pipeline_refs[k] == x;
            assert(all[global.len() + k] == x);
        }
        if own.contains(x) {
            let k = choose|k: int| 0 <= k < own.len() && own[k] == x;
            assert(all[gp.len() + k] == x);
        }
    }
}

impl Pipeline {
    /// Checks the definition: a non-empty name, at least one stage, and for
    /// each stage (in order) a non-empty key and a non-empty command.
    pub fn validate(&self) -> (r: Result<(), ForgeError>)
        ensures
            self.name@.len() == 0 ==> r matches Err(ForgeError::EmptyPipelineName),
            self.name@.len() > 0 && stage_entries(self.stages).len() == 0 ==> (r matches Err(
                ForgeError::NoStages { pipeline },
            ) && pipeline@ == self.name@),
            ({
                let es = stage_entries(self.stages);
                let k = first_bad_entry(es);
                self.name@.len() > 0 && es.len() > 0 && k < es.len() && es[k].0.len() == 0
                    ==> (r matches Err(ForgeError::EmptyStageName { pipeline }) && pipeline@
                    == self.name@)
            }),
            ({
                let es = stage_entries(self.stages);
                let k = first_bad_entry(es);
                self.name@.len() > 0 && es.len() > 0 && k < es.len() && es[k].0.len() > 0
                    ==> (r matches Err(ForgeError::EmptyCommand { stage, pipeline }) && stage@
                    == es[k].0 && pipeline@ == self.name@)
            }),
            ({
                let es = stage_entries(self.stages);
                self.name@.len() > 0 && es.len() > 0 && first_bad_entry(es) == es.len()
                    ==> r is Ok
            }),
    {
        let ghost es = stage_entries(self.stages);
        if self.name.as_str().is_empty() {
            return Err(ForgeError::EmptyPipelineName);
        }
        let n = stage_count(&self.stages);
        if n == 0 {
            return Err(ForgeError::NoStages { pipeline: self.name.clone() });
        }
        proof {
            lemma_first_bad_entry_from(es, 0);
        }
        let mut i: usize = 0;
        while i < n
            invariant
                n == es.len(),
                es == stage_entries(self.stages),
                self.name@.len() > 0,
                i <= n,
                i <= first_bad_entry(es),
                first_bad_entry(es) <= es.len(),
                forall|j: int| 0 <= j < first_bad_entry(es) ==> stage_entry_ok(#[trigger] es[j]),
                first_bad_entry(es) < es.len() ==> !stage_entry_ok(es[first_bad_entry(es)]),
            decreases n - i,
        {
            let entry = stage_at(&self.stages, i);
            match entry {
                Some((key, stage)) => {
                    if key.as_str().is_empty() {
                        return Err(ForgeError::EmptyStageName { pipeline: self.name.clone() });
                    }
                    if stage.command.as_str().is_empty() {
                        return Err(
                            ForgeError::EmptyCommand {
                                stage: key.clone(),
                                pipeline: self.name.clone(),
                            },
                        );
                    }
                    assert(stage_entry_ok(es[i as int]));
                },
                None => {},
            }
            i = i + 1;
        }
        Ok(())
    }

    /// The stage at position `index`, in definition order; an index past the
    /// last stage is refused.
    pub fn stage_by_index(&self, index: usize) -> (r: Result<&Stage, ForgeError>)
        ensures
            index < stage_entries(self.stages).len() ==> (r matches Ok(s) && s@ == stage_entries(
                self.stages,
            )[index as int].1),
            index >= stage_entries(self.stages).len() ==> (r matches Err(
                ForgeError::StageIndexOutOfBounds { index: i },
            ) && i == index),
    {
        match stage_at(&self.stages, index) {
            Some((_, stage)) => Ok(stage),
            None => Err(ForgeError::StageIndexOutOfBounds { index }),
        }
    }

    /// The references of stage `stage_index`: the global references, then the
    /// pipeline's, then the stage's own (none when the index names no stage),
    /// each once, where it first appears.
    pub fn all_references_for_stage(&self, stage_index: usize, global_refs: &[String]) -> (r: Vec<
        String,
    >)
        ensures
            r.deep_view() == dedup_first(
                layered_references(
                    global_refs.deep_view(),
                    self.references.deep_view(),
                    stage_entries(self.stages),
                    stage_index as int,
                ),
            ),
            r.deep_view().no_duplicates(),
            forall|x: Seq<char>|
                r.deep_view().contains(x) <==> layered_references(
                    global_refs.deep_view(),
                    self.references.deep_view(),
                    stage_entries(self.stages),
                    stage_index as int,
                ).contains(x),
    {
        let ghost all = layered_references(
            global_refs.deep_view(),
            self.references.deep_view(),
            stage_entries(self.stages),
            stage_index as int,
        );
        let mut out: Vec<String> = Vec::new();
        let ghost src: Seq<Seq<char>> = seq![];
        assert(out.deep_view() =~= dedup_first(src));
        let mut i: usize = 0;
        while i < global_refs.len()
            invariant
                i <= global_refs.deep_view().len(),
                src == global_refs.deep_view().take(i as int),
                out.deep_view() == dedup_first(src),
            decreases global_refs.deep_view().len() - i,
        {
            push_unique(&mut out, &global_refs[i], Ghost(src));
            proof {
                src = src.push(global_refs[i as int]@);
                assert(src =~= global_refs.deep_view().take(i + 1));
            }
            i = i + 1;
        }
        assert(src =~= global_refs.deep_view());
        let mut i: usize = 0;
        while i < self.references.len()
            invariant
                i <= self.references.deep_view().len(),
                src == global_refs.deep_view() + self.references.deep_view().take(i as int),
                out.deep_view() == dedup_first(src),
            decreases self.references.deep_view().len() - i,
        {
            push_unique(&mut out, &self.references[i], Ghost(src));
            proof {
                src = src.push(self.references[i as int]@);
                assert(src =~= global_refs.deep_view() + self.references.deep_view().take(i + 1));
            }
            i = i + 1;
        }
        assert(src =~= global_refs.deep_view() + self.references.deep_view());
        match stage_at(&self.stages, stage_index) {
            Some((_, stage)) => {
                let ghost base = src;
                let mut i: usize = 0;
                while i < stage.references.len()
                    invariant
                        i <= stage.references.deep_view().len(),
                        src == base + stage.references.deep_view().take(i as int),
                        out.deep_view() == dedup_first(src),
                    decreases stage.references.deep_view().len() - i,
                {
                    push_unique(&mut out, &stage.references[i], Ghost(src));
                    proof {
                        src = src.push(stage.references[i as int]@);
                        assert(src =~= base + stage.references.deep_view().take(i + 1));
                    }
                    i = i + 1;
                }
                assert(src =~= all);
            },
            None => {
                assert(src =~= all);
            },
        }
        proof {
            lemma_dedup_first(all);
        }
        out
    }
}

} // verus!
