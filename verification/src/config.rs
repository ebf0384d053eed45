//! Forge configuration: where forge's home, store and pipelines live, and how
//! pipeline names resolve to definition files.

use vstd::prelude::*;

use crate::error::ForgeError;
use crate::order::{names_of, sort_by_name, sorted};
use crate::paths::{join_path, path_exists, path_is_absolute, path_join, is_absolute, yml_file_stem, yml_stem};
use crate::text::{append_chars, chars_of, opt_view, string_from_chars, to_owned_string};

verus! {

broadcast use vstd::seq_lib::group_to_multiset_ensures;

/// The top-level document of `forge.yml`.
#[derive(Debug, Clone)]
pub struct ForgeConfigWrapper {
    pub forge: ForgeConfig,
}

/// Forge's configuration.
#[derive(Debug, Clone)]
pub struct ForgeConfig {
    pub version: String,
    pub home: String,
    pub store: String,
    pub pipelines: Vec<String>,
    pub global_references: Vec<String>,
    pub log_level: Option<String>,
}

/// `s` begins with a tilde that names the user's home: `~` alone or `~/...`.
pub open spec fn tilde_expandable(s: Seq<char>) -> bool {
    s.len() > 0 && s[0] == '~' && (s.len() == 1 || s[1] == '/')
}

/// `out` is a possible tilde expansion of `input`: unchanged when the input
/// does not start with a home tilde; otherwise either unchanged (no home
/// directory known) or some home directory followed by the rest of the input.
pub open spec fn tilde_result(input: Seq<char>, out: Seq<char>) -> bool {
    if !tilde_expandable(input) {
        out == input
    } else {
        out == input || exists|h: Seq<char>| out == h + input.drop_first()
    }
}

/// Expands a leading `~` to the user's home directory (`shellexpand::tilde`).
///
/// Trusted: input without a leading `~` or `~/` comes back unchanged; with one,
/// the result is the input unchanged (home unknown) or some home directory
/// followed by the input without its `~`. Which home directory is used depends
/// on the environment and is not described.
#[verifier::external_body]
fn expand_tilde(s: &str) -> (r: String)
    ensures
        tilde_result(s@, r@),
{
    shellexpand::tilde(s).into_owned()
}

/// `out` is a possible resolution of the pipeline directory entry `dir`
/// relative to forge home `home`.
pub open spec fn resolved_dir(home: Seq<char>, dir: Seq<char>, out: Seq<char>) -> bool {
    exists|h: Seq<char>, d: Seq<char>|
        #![trigger tilde_result(home, h), tilde_result(dir, d)]
        tilde_result(home, h) && tilde_result(dir, d) && out == (if is_absolute(d) {
            d
        } else {
            path_join(h, d)
        })
}

/// The definition file of pipeline `name` inside the directory `dir`.
pub open spec fn candidate_path(home: Seq<char>, dir: Seq<char>, name: Seq<char>, p: Seq<char>) -> bool {
    exists|r: Seq<char>| #[trigger] resolved_dir(home, dir, r) && p == path_join(r, name + ".yml"@)
}

/// Position of the first `true`.
pub open spec fn first_true(flags: Seq<bool>) -> Option<int>
    decreases flags.len(),
{
    if flags.len() == 0 {
        None
    } else {
        match first_true(flags.drop_last()) {
            Some(i) => Some(i),
            None => if flags.last() {
                Some(flags.len() - 1)
            } else {
                None
            },
        }
    }
}

/// Position of the first `true` flag (the first directory that has the file).
pub fn first_existing(flags: &Vec<bool>) -> (r: Option<usize>)
    ensures
        r matches Some(i) ==> first_true(flags@) == Some(i as int),
        r is None ==> first_true(flags@) is None,
{
    let mut i: usize = 0;
    while i < flags.len()
        invariant
            i <= flags@.len(),
            first_true(flags@.take(i as int)) is None,
        decreases flags@.len() - i,
    {
        proof {
            assert(flags@.take(i + 1).drop_last() =~= flags@.take(i as int));
        }
        if flags[i] {
            proof {
                lemma_first_true_prefix(flags@, i as int + 1);
            }
            return Some(i);
        }
        i = i + 1;
    }
    assert(flags@.take(i as int) =~= flags@);
    None
}

proof fn lemma_first_true_prefix(flags: Seq<bool>, k: int)
    requires
        0 < k <= flags.len(),
        first_true(flags.take(k)) is Some,
    ensures
        first_true(flags) == first_true(flags.take(k)),
    decreases flags.len() - k,
{
    if k < flags.len() {
        assert(flags.take(k + 1).drop_last() =~= flags.take(k));
        lemma_first_true_prefix(flags, k + 1);
    } else {
        assert(flags.take(k) =~= flags);
    }
}

/// The pipelines found in directory listings: each `(file name, path)` entry
/// whose name is `<stem>.yml` gives `(stem, path)`, in listing order.
pub open spec fn yml_entries(es: Seq<(Seq<char>, Seq<char>)>) -> Seq<(Seq<char>, Seq<char>)>
    decreases es.len(),
{
    if es.len() == 0 {
        seq![]
    } else {
        yml_entries(es.drop_last()) + match yml_stem(es.last().0) {
            Some(stem) => seq![(stem, es.last().1)],
            None => seq![],
        }
    }
}

/// The first entry for each name, in order (later entries with a name
/// already seen are shadowed).
pub open spec fn first_per_name(c: Seq<(Seq<char>, Seq<char>)>) -> Seq<(Seq<char>, Seq<char>)>
    decreases c.len(),
{
    if c.len() == 0 {
        seq![]
    } else if names_of(first_per_name(c.drop_last())).contains(c.last().0) {
        first_per_name(c.drop_last())
    } else {
        first_per_name(c.drop_last()).push(c.last())
    }
}

/// No two entries share a name.
pub open spec fn names_distinct(v: Seq<(Seq<char>, Seq<char>)>) -> bool {
    names_of(v).no_duplicates()
}

/// An earlier entry shadows a later one of the same name: `first_per_name`
/// lists each name once, every name of `c` is listed, and each listed
/// entry is the first entry of `c` with its name.
pub proof fn law_first_directory_wins(c: Seq<(Seq<char>, Seq<char>)>)
    ensures
        names_distinct(first_per_name(c)),
        forall|x: (Seq<char>, Seq<char>)|
            #[trigger] c.contains(x) ==> names_of(first_per_name(c)).contains(x.0),
        forall|j: int|
            0 <= j < first_per_name(c).len() ==> exists|i: int|
                0 <= i < c.len() && c[i] == #[trigger] first_per_name(c)[j] && forall|k: int|
                    0 <= k < i ==> #[trigger] c[k].0 != c[i].0,
    decreases c.len(),
{
    if c.len() > 0 {
        let p = c.drop_last();
        let fp = first_per_name(p);
        let f = first_per_name(c);
        law_first_directory_wins(p);
        assert forall|x: (Seq<char>, Seq<char>)| #[trigger] c.contains(x) implies names_of(f).contains(x.0) by {
            let i = choose|i: int| 0 <= i < c.len() && c[i] == x;
            if i < c.len() - 1 {
                assert(p[i] == x);
                assert(p.contains(x));
                let j = choose|j: int| 0 <= j < names_of(fp).len() && names_of(fp)[j] == x.0;
                if names_of(fp).contains(c.last().0) {
                    assert(f == fp);
                } else {
                    assert(f == fp.push(c.last()));
                    assert(names_of(f)[j] == fp[j].0);
                }
            } else {
                if names_of(fp).contains(c.last().0) {
                    assert(f == fp);
                } else {
                    assert(f == fp.push(c.last()));
                    assert(names_of(f)[fp.len() as int] == x.0);
                }
            }
        }
        if names_of(fp).contains(c.last().0) {
            assert(f == fp);
            assert forall|j: int| 0 <= j < f.len() implies exists|i: int|
                0 <= i < c.len() && c[i] == #[trigger] f[j] && forall|k: int|
                    0 <= k < i ==> #[trigger] c[k].0 != c[i].0 by {
                let i = choose|i: int|
                    0 <= i < p.len() && p[i] == #[trigger] fp[j] && forall|k: int|
                        0 <= k < i ==> #[trigger] p[k].0 != p[i].0;
                assert(c[i] == p[i]);
                assert forall|k: int| 0 <= k < i implies #[trigger] c[k].0 != c[i].0 by {
                    assert(c[k] == p[k]);
                }
            }
        } else {
            assert(f == fp.push(c.last()));
            assert(names_of(f) =~= names_of(fp).push(c.last().0));
            assert forall|a: int, b: int|
                0 <= a < names_of(f).len() && 0 <= b < names_of(f).len() && a != b implies names_of(f)[a]
                != names_of(f)[b] by {
                if a < fp.len() && b < fp.len() {
                    assert(names_of(f)[a] == names_of(fp)[a]);
                    assert(names_of(f)[b] == names_of(fp)[b]);
                } else if a < fp.len() {
                    assert(names_of(f)[a] == names_of(fp)[a]);
                } else {
                    assert(names_of(f)[b] == names_of(fp)[b]);
                }
            }
            assert forall|j: int| 0 <= j < f.len() implies exists|i: int|
                0 <= i < c.len() && c[i] == #[trigger] f[j] && forall|k: int|
                    0 <= k < i ==> #[trigger] c[k].0 != c[i].0 by {
                if j < fp.len() {
                    assert(f[j] == fp[j]);
                    let i = choose|i: int|
                        0 <= i < p.len() && p[i] == #[trigger] fp[j] && forall|k: int|
                            0 <= k < i ==> #[trigger] p[k].0 != p[i].0;
                    assert(c[i] == p[i]);
                    assert forall|k: int| 0 <= k < i implies #[trigger] c[k].0 != c[i].0 by {
                        assert(c[k] == p[k]);
                    }
                } else {
                    let i = c.len() - 1;
                    assert(c[i] == f[j]);
                    assert forall|k: int| 0 <= k < i implies #[trigger] c[k].0 != c[i].0 by {
                        assert(c[k] == p[k]);
                        assert(p.contains(p[k]));
                    }
                }
            }
        }
    }
}

/// Two lists with the same entries (as multisets) agree on whether their
/// names are distinct.
pub proof fn lemma_names_distinct_permutation(a: Seq<(Seq<char>, Seq<char>)>, b: Seq<(Seq<char>, Seq<char>)>)
    requires
        names_distinct(a),
        a.to_multiset() =~= b.to_multiset(),
    ensures
        names_distinct(b),
{
    assert(a.no_duplicates()) by {
        assert forall|i: int, j: int| 0 <= i < a.len() && 0 <= j < a.len() && i != j implies a[i]
            != a[j] by {
            assert(names_of(a)[i] == a[i].0);
            assert(names_of(a)[j] == a[j].0);
        }
    }
    a.lemma_multiset_has_no_duplicates();
    b.lemma_multiset_has_no_duplicates_conv();
    assert forall|i: int, j: int|
        0 <= i < names_of(b).len() && 0 <= j < names_of(b).len() && i != j implies names_of(b)[i]
        != names_of(b)[j] by {
        if names_of(b)[i] == names_of(b)[j] {
            assert(b.contains(b[i]));
            assert(b.contains(b[j]));
            assert(b.to_multiset().count(b[i]) > 0);
            assert(b.to_multiset().count(b[j]) > 0);
            assert(a.to_multiset().count(b[i]) > 0);
            assert(a.to_multiset().count(b[j]) > 0);
            assert(a.contains(b[i]));
            assert(a.contains(b[j]));
            let x = choose|x: int| 0 <= x < a.len() && a[x] == b[i];
            let y = choose|y: int| 0 <= y < a.len() && a[y] == b[j];
            assert(names_of(a)[x] == a[x].0);
            assert(names_of(a)[y] == a[y].0);
            assert(x == y);
        }
    }
}

/// Whether an entry named `name` is already present.
fn has_name(v: &Vec<(String, String)>, name: &String) -> (b: bool)
    ensures
        b == names_of(v.deep_view()).contains(name@),
{
    let mut i: usize = 0;
    while i < v.len()
        invariant
            i <= v@.len(),
            forall|k: int| 0 <= k < i ==> v.deep_view()[k].0 != name@,
        decreases v@.len() - i,
    {
        if v[i].0 == *name {
            assert(names_of(v.deep_view())[i as int] == name@);
            return true;
        }
        i = i + 1;
    }
    assert forall|k: int| 0 <= k < names_of(v.deep_view()).len() implies names_of(v.deep_view())[k]
        != name@ by {
        assert(names_of(v.deep_view())[k] == v.deep_view()[k].0);
    }
    false
}

/// The pipelines available from directory listings.
///
/// `listing` holds `(file name, path)` for every directory entry, directory
/// by directory in configuration order. The result has one `(name, path)`
/// per distinct stem of a `.yml` file, taken from its first occurrence (an
/// earlier directory shadows a later one), sorted by name.
pub fn discover_pipelines(listing: &Vec<(String, String)>) -> (r: Vec<(String, String)>)
    ensures
        sorted(names_of(r.deep_view())),
        r.deep_view().to_multiset() =~= first_per_name(yml_entries(listing.deep_view())).to_multiset(),
        names_distinct(r.deep_view()),
        forall|x: (Seq<char>, Seq<char>)|
            r.deep_view().contains(x) <==> first_per_name(yml_entries(listing.deep_view())).contains(x),
{
    let ghost es = listing.deep_view();
    let mut found: Vec<(String, String)> = Vec::new();
    let ghost cand: Seq<(Seq<char>, Seq<char>)> = seq![];
    let mut i: usize = 0;
    while i < listing.len()
        invariant
            i <= listing@.len(),
            es == listing.deep_view(),
            cand == yml_entries(es.take(i as int)),
            found.deep_view() == first_per_name(cand),
        decreases listing@.len() - i,
    {
        proof {
            assert(es.take(i + 1).drop_last() =~= es.take(i as int));
            assert(es.take(i + 1).last() == es[i as int]);
        }
        match yml_file_stem(listing[i].0.as_str()) {
            Some(stem) => {
                let seen = has_name(&found, &stem);
                proof {
                    assert(cand + seq![(stem@, es[i as int].1)] =~= cand.push(
                        (stem@, es[i as int].1),
                    ));
                    cand = cand.push((stem@, es[i as int].1));
                    assert(cand.drop_last() =~= yml_entries(es.take(i as int)));
                }
                if !seen {
                    let path = listing[i].1.clone();
                    found.push((stem, path));
                    proof {
                        assert(found.deep_view() =~= first_per_name(cand.drop_last()).push(
                            cand.last(),
                        ));
                    }
                }
            },
            None => {
                proof {
                    assert(cand + Seq::<(Seq<char>, Seq<char>)>::empty() =~= cand);
                }
            },
        }
        i = i + 1;
    }
    assert(es.take(i as int) =~= es);
    let ghost fv = found.deep_view();
    let r = sort_by_name(found);
    proof {
        law_first_directory_wins(cand);
        lemma_names_distinct_permutation(fv, r.deep_view());
        lemma_same_elements(fv, r.deep_view());
    }
    r
}

/// Lists with the same entries as multisets contain the same entries.
pub(crate) proof fn lemma_same_elements(a: Seq<(Seq<char>, Seq<char>)>, b: Seq<(Seq<char>, Seq<char>)>)
    requires
        a.to_multiset() =~= b.to_multiset(),
    ensures
        forall|x: (Seq<char>, Seq<char>)| a.contains(x) <==> b.contains(x),
{
    assert forall|x: (Seq<char>, Seq<char>)| a.contains(x) <==> b.contains(x) by {
        assert(a.contains(x) <==> a.to_multiset().count(x) > 0);
        assert(b.contains(x) <==> b.to_multiset().count(x) > 0);
    }
}

impl ForgeConfig {
    /// Forge home, with a leading `~` expanded.
    pub fn home_dir(&self) -> (r: Result<String, ForgeError>)
        ensures
            r matches Ok(h) && tilde_result(self.home@, h@),
    {
        Ok(expand_tilde(self.home.as_str()))
    }

    /// The record store directory, with a leading `~` expanded.
    pub fn store_dir(&self) -> (r: Result<String, ForgeError>)
        ensures
            r matches Ok(s) && tilde_result(self.store@, s@),
    {
        Ok(expand_tilde(self.store.as_str()))
    }

    /// A pipeline directory entry as a path: `~` expanded, and relative
    /// entries placed under forge home.
    fn resolve_pipeline_dir(&self, dir: &str) -> (r: String)
        ensures
            resolved_dir(self.home@, dir@, r@),
    {
        let d = expand_tilde(dir);
        if path_is_absolute(d.as_str()) {
            proof {
                assert(tilde_result(self.home@, self.home@));
                assert(tilde_result(self.home@, self.home@) && tilde_result(dir@, d@) && d@ == (
                if is_absolute(d@) {
                    d@
                } else {
                    path_join(self.home@, d@)
                }));
            }
            d
        } else {
            let h = expand_tilde(self.home.as_str());
            join_path(h.as_str(), d.as_str())
        }
    }

    /// Every pipeline directory as a path, in configuration order.
    pub fn pipeline_dirs(&self) -> (r: Vec<String>)
        ensures
            r@.len() == self.pipelines@.len(),
            forall|i: int|
                0 <= i < r@.len() ==> resolved_dir(self.home@, self.pipelines@[i]@, #[trigger] r@[i]@),
    {
        let mut out: Vec<String> = Vec::new();
        let mut i: usize = 0;
        while i < self.pipelines.len()
            invariant
                i <= self.pipelines@.len(),
                out@.len() == i,
                forall|k: int|
                    0 <= k < i ==> resolved_dir(self.home@, self.pipelines@[k]@, #[trigger] out@[k]@),
            decreases self.pipelines@.len() - i,
        {
            out.push(self.resolve_pipeline_dir(self.pipelines[i].as_str()));
            i = i + 1;
        }
        out
    }

    /// Where pipeline `name` would be defined in each pipeline directory, in
    /// configuration order.
    pub fn pipeline_candidates(&self, name: &str) -> (r: Vec<String>)
        ensures
            r@.len() == self.pipelines@.len(),
            forall|i: int|
                0 <= i < r@.len() ==> candidate_path(
                    self.home@,
                    self.pipelines@[i]@,
                    name@,
                    #[trigger] r@[i]@,
                ),
    {
        let mut file: Vec<char> = chars_of(name);
        let ext = chars_of(".yml");
        append_chars(&mut file, &ext);
        let file = string_from_chars(&file);
        let mut out: Vec<String> = Vec::new();
        let mut i: usize = 0;
        while i < self.pipelines.len()
            invariant
                i <= self.pipelines@.len(),
                file@ == name@ + ".yml"@,
                out@.len() == i,
                forall|k: int|
                    0 <= k < i ==> candidate_path(
                        self.home@,
                        self.pipelines@[k]@,
                        name@,
                        #[trigger] out@[k]@,
                    ),
            decreases self.pipelines@.len() - i,
        {
            let dir = self.resolve_pipeline_dir(self.pipelines[i].as_str());
            let c = join_path(dir.as_str(), file.as_str());
            out.push(c);
            i = i + 1;
        }
        out
    }

    /// The definition file of pipeline `name`: `<name>.yml` in the first
    /// pipeline directory that has one. Unknown pipelines are refused.
    pub fn pipeline_path(&self, name: &str) -> (r: Result<String, ForgeError>)
        ensures
            r matches Ok(p) ==> exists|i: int|
                0 <= i < self.pipelines@.len() && candidate_path(
                    self.home@,
                    #[trigger] self.pipelines@[i]@,
                    name@,
                    p@,
                ),
            r matches Err(e) ==> (e matches ForgeError::UnknownPipeline { name: n, searched }
                && n@ == name@ && searched.deep_view() == self.pipelines.deep_view()),
    {
        let candidates = self.pipeline_candidates(name);
        let mut flags: Vec<bool> = Vec::new();
        let mut i: usize = 0;
        while i < candidates.len()
            invariant
                i <= candidates@.len(),
                flags@.len() == i,
            decreases candidates@.len() - i,
        {
            flags.push(path_exists(candidates[i].as_str()));
            i = i + 1;
        }
        match first_existing(&flags) {
            Some(k) => {
                proof {
                    lemma_first_true_bound(flags@);
                }
                let p = candidates[k].clone();
                assert(candidate_path(self.home@, self.pipelines@[k as int]@, name@, p@));
                Ok(p)
            },
            None => Err(
                ForgeError::UnknownPipeline {
                    name: to_owned_string(name),
                    searched: self.pipelines.clone(),
                },
            ),
        }
    }

    /// The path of a reference, relative to forge home.
    pub fn reference_path(&self, rel: &str) -> (r: Result<String, ForgeError>)
        ensures
            r matches Ok(p) && exists|h: Seq<char>|
                tilde_result(self.home@, h) && p@ == path_join(h, rel@),
    {
        let home = expand_tilde(self.home.as_str());
        Ok(join_path(home.as_str(), rel))
    }
}

proof fn lemma_first_true_bound(flags: Seq<bool>)
    ensures
        first_true(flags) matches Some(i) ==> 0 <= i < flags.len() && flags[i],
    decreases flags.len(),
{
    if flags.len() > 0 {
        lemma_first_true_bound(flags.drop_last());
    }
}

/// The first directory wins: the chosen position holds the first `true`, and
/// nothing is chosen only when every flag is `false`.
pub proof fn law_first_existing_is_first(flags: Seq<bool>)
    ensures
        first_true(flags) matches Some(i) ==> 0 <= i < flags.len() && flags[i] && forall|j: int|
            0 <= j < i ==> !#[trigger] flags[j],
        first_true(flags) is None ==> forall|j: int| 0 <= j < flags.len() ==> !#[trigger] flags[j],
    decreases flags.len(),
{
    if flags.len() > 0 {
        let p = flags.drop_last();
        law_first_existing_is_first(p);
        assert forall|j: int| 0 <= j < p.len() implies p[j] == flags[j] by {}
    }
}

/// A place where `forge.yml` may be found.
#[derive(Debug, Clone)]
pub struct ConfigCandidate {
    /// The path of the file.
    pub path: String,
    /// Whether the file is read only when it exists (otherwise it is read
    /// regardless, and a missing file is an error).
    pub only_if_present: bool,
    /// Whether a failure to load it ends the search with that failure
    /// (otherwise it is reported and the search goes on).
    pub must_load: bool,
}

/// The model of a configuration candidate: path, only-if-present, must-load.
pub open spec fn candidate_view(c: ConfigCandidate) -> (Seq<char>, bool, bool) {
    (c.path@, c.only_if_present, c.must_load)
}

/// Where the configuration is looked for, in order: an explicit path alone
/// (read unconditionally); otherwise `$FORGE_HOME/forge.yml`, then
/// `<config dir>/forge/forge.yml`, each skipped when absent or unreadable,
/// and finally `./forge.yml`, whose failure to load is final.
pub open spec fn config_search(
    explicit: Option<Seq<char>>,
    forge_home: Option<Seq<char>>,
    config_dir: Option<Seq<char>>,
) -> Seq<(Seq<char>, bool, bool)> {
    match explicit {
        Some(p) => seq![(p, false, true)],
        None => home_candidate(forge_home) + dir_candidate(config_dir) + seq![("forge.yml"@, true, true)],
    }
}

/// `$FORGE_HOME/forge.yml`, when the variable is set.
pub open spec fn home_candidate(forge_home: Option<Seq<char>>) -> Seq<(Seq<char>, bool, bool)> {
    match forge_home {
        Some(h) => seq![(path_join(h, "forge.yml"@), true, false)],
        None => seq![],
    }
}

/// `<config dir>/forge/forge.yml`, when the directory is known.
pub open spec fn dir_candidate(config_dir: Option<Seq<char>>) -> Seq<(Seq<char>, bool, bool)> {
    match config_dir {
        Some(d) => seq![(path_join(path_join(d, "forge"@), "forge.yml"@), true, false)],
        None => seq![],
    }
}

/// The places to look for `forge.yml`, given the `--config` option, the
/// `FORGE_HOME` variable and the user's configuration directory.
pub fn config_candidates(explicit: Option<&str>, forge_home: Option<&str>, config_dir: Option<&str>) -> (r:
    Vec<ConfigCandidate>)
    ensures
        r@.map_values(|c: ConfigCandidate| candidate_view(c)) == config_search(
            opt_view(explicit),
            opt_view(forge_home),
            opt_view(config_dir),
        ),
{
    let mut out: Vec<ConfigCandidate> = Vec::new();
    match explicit {
        Some(p) => {
            out.push(ConfigCandidate { path: to_owned_string(p), only_if_present: false, must_load: true });
            assert(out@.map_values(|c: ConfigCandidate| candidate_view(c)) =~= seq![(p@, false, true)]);
            return out;
        },
        None => {},
    }
    let ghost first = home_candidate(opt_view(forge_home));
    let ghost second = dir_candidate(opt_view(config_dir));
    match forge_home {
        Some(h) => {
            out.push(
                ConfigCandidate { path: join_path(h, "forge.yml"), only_if_present: true, must_load: false },
            );
        },
        None => {},
    }
    assert(out@.map_values(|c: ConfigCandidate| candidate_view(c)) =~= first);
    match config_dir {
        Some(d) => {
            let dir = join_path(d, "forge");
            let ghost before = out@.map_values(|c: ConfigCandidate| candidate_view(c));
            out.push(
                ConfigCandidate {
                    path: join_path(dir.as_str(), "forge.yml"),
                    only_if_present: true,
                    must_load: false,
                },
            );
            assert(out@.map_values(|c: ConfigCandidate| candidate_view(c)) =~= before.push(
                (path_join(path_join(d@, "forge"@), "forge.yml"@), true, false),
            ));
        },
        None => {},
    }
    assert(out@.map_values(|c: ConfigCandidate| candidate_view(c)) =~= first + second);
    let ghost before = out@.map_values(|c: ConfigCandidate| candidate_view(c));
    out.push(ConfigCandidate { path: to_owned_string("forge.yml"), only_if_present: true, must_load: true });
    assert(out@.map_values(|c: ConfigCandidate| candidate_view(c)) =~= before.push(("forge.yml"@, true, true)));
    out
}

/// The log level in force: the command line's, else the environment's, else
/// the configuration's, else `"info"`.
pub fn resolve_log_level(cli: Option<&str>, env: Option<&str>, config: Option<&str>) -> (r: String)
    ensures
        cli matches Some(c) ==> r@ == c@,
        cli is None ==> (env matches Some(e) ==> r@ == e@),
        cli is None && env is None ==> (config matches Some(c) ==> r@ == c@),
        cli is None && env is None && config is None ==> r@ == "info"@,
{
    match cli {
        Some(c) => to_owned_string(c),
        None => match env {
            Some(e) => to_owned_string(e),
            None => match config {
                Some(c) => to_owned_string(c),
                None => to_owned_string("info"),
            },
        },
    }
}

} // verus!
