//! The `.forge/` workspace ("briefcase"): which references it links, where
//! stage outputs live, how the final output is named, and how `.gitignore`
//! is kept in step.

use vstd::prelude::*;

use crate::error::ForgeError;
use crate::executor::{output_file_name, stage_output_filename, template_vars};
use crate::order::{sort_strings, sorted};
use crate::paths::{file_name, join_path, path_exists, path_file_name, path_join};
use crate::pipeline::{
    Pipeline, dedup_consecutive, lemma_dedup_no_neighbours, lemma_dedup_same_elements, push_dedup,
    stage_at, stage_count, stage_entries, StageView,
};
use crate::store::{PipelineRun, RunStatus, StageStatus};
use crate::text::{
    all_white, append_chars, chars_of, contains_chars, ends_with, join, join_chars,
    lemma_trim_empty, lines, lines_from, opt_view, replace_all, replace_str, seq_contains,
    split_lines, starts_with, string_from_chars, strip_cr, to_owned_string, trim, trim_chars,
};

verus! {

broadcast use vstd::seq_lib::group_to_multiset_ensures;

// ---------------------------------------------------------------------------
// References linked into the workspace
// ---------------------------------------------------------------------------

/// Every reference of a pipeline run: global ones, the pipeline's, then each
/// stage's, in order.
pub open spec fn all_run_references(
    global: Seq<Seq<char>>,
    pipeline_refs: Seq<Seq<char>>,
    es: Seq<(Seq<char>, StageView)>,
) -> Seq<Seq<char>>
    decreases es.len(),
{
    if es.len() == 0 {
        global + pipeline_refs
    } else {
        all_run_references(global, pipeline_refs, es.drop_last()) + es.last().1.references
    }
}

/// Neighbours differ.
pub open spec fn no_repeats(s: Seq<Seq<char>>) -> bool {
    forall|k: int| 0 < k < s.len() ==> #[trigger] s[k] != s[k - 1]
}

/// The references to link into a new workspace: every global, pipeline and
/// stage reference, sorted, each once.
pub fn unpack_references(global: &Vec<String>, pipeline: &Pipeline) -> (r: Vec<String>)
    ensures
        sorted(r.deep_view()),
        no_repeats(r.deep_view()),
        r.deep_view().no_duplicates(),
        forall|x: Seq<char>|
            r.deep_view().contains(x) <==> all_run_references(
                global.deep_view(),
                pipeline.references.deep_view(),
                stage_entries(pipeline.stages),
            ).contains(x),
{
    let ghost es = stage_entries(pipeline.stages);
    let mut all: Vec<String> = global.clone();
    proof {
        assert(all.deep_view() =~= global.deep_view());
    }
    let mut i: usize = 0;
    while i < pipeline.references.len()
        invariant
            i <= pipeline.references@.len(),
            all.deep_view() == global.deep_view() + pipeline.references.deep_view().take(i as int),
        decreases pipeline.references@.len() - i,
    {
        let ghost before = all.deep_view();
        all.push(pipeline.references[i].clone());
        assert(all.deep_view() =~= before.push(pipeline.references.deep_view()[i as int]));
        assert(pipeline.references.deep_view().take(i + 1) =~= pipeline.references.deep_view().take(
            i as int,
        ).push(pipeline.references.deep_view()[i as int]));
        i = i + 1;
        assert(all.deep_view() =~= global.deep_view() + pipeline.references.deep_view().take(
            i as int,
        ));
    }
    assert(pipeline.references.deep_view().take(i as int) =~= pipeline.references.deep_view());
    let n = stage_count(&pipeline.stages);
    let mut s: usize = 0;
    while s < n
        invariant
            n == es.len(),
            es == stage_entries(pipeline.stages),
            s <= n,
            all.deep_view() == all_run_references(
                global.deep_view(),
                pipeline.references.deep_view(),
                es.take(s as int),
            ),
        decreases n - s,
    {
        proof {
            assert(es.take(s + 1).drop_last() =~= es.take(s as int));
            assert(es.take(s + 1).last() == es[s as int]);
        }
        match stage_at(&pipeline.stages, s) {
            Some((_, stage)) => {
                let ghost base = all.deep_view();
                let mut k: usize = 0;
                while k < stage.references.len()
                    invariant
                        k <= stage.references@.len(),
                        all.deep_view() == base + stage.references.deep_view().take(k as int),
                    decreases stage.references@.len() - k,
                {
                    let ghost before = all.deep_view();
                    all.push(stage.references[k].clone());
                    assert(all.deep_view() =~= before.push(stage.references.deep_view()[k as int]));
                    assert(stage.references.deep_view().take(k + 1) =~= stage.references.deep_view().take(
                        k as int,
                    ).push(stage.references.deep_view()[k as int]));
                    k = k + 1;
                    assert(all.deep_view() =~= base + stage.references.deep_view().take(k as int));
                }
                assert(stage.references.deep_view().take(k as int) =~= stage.references.deep_view());
            },
            None => {},
        }
        s = s + 1;
    }
    assert(es.take(s as int) =~= es);
    let ghost every = all.deep_view();
    let sorted_all = sort_strings(all);
    let mut out: Vec<String> = Vec::new();
    let ghost src: Seq<Seq<char>> = seq![];
    assert(out.deep_view() =~= dedup_consecutive(src));
    let mut j: usize = 0;
    while j < sorted_all.len()
        invariant
            j <= sorted_all@.len(),
            src == sorted_all.deep_view().take(j as int),
            out.deep_view() == dedup_consecutive(src),
        decreases sorted_all@.len() - j,
    {
        push_dedup(&mut out, &sorted_all[j], Ghost(src));
        proof {
            src = src.push(sorted_all[j as int]@);
            assert(src =~= sorted_all.deep_view().take(j + 1));
        }
        j = j + 1;
    }
    proof {
        assert(src =~= sorted_all.deep_view());
        lemma_dedup_same_elements(src);
        lemma_dedup_no_neighbours(src);
        lemma_dedup_sorted(src);
        lemma_sorted_distinct(out.deep_view());
        assert forall|x: Seq<char>| out.deep_view().contains(x) <==> every.contains(x) by {
            assert(src.contains(x) <==> src.to_multiset().count(x) > 0);
            assert(every.contains(x) <==> every.to_multiset().count(x) > 0);
        }
    }
    out
}

/// A sorted list whose neighbours differ has no duplicates.
proof fn lemma_sorted_distinct(s: Seq<Seq<char>>)
    requires
        sorted(s),
        no_repeats(s),
    ensures
        s.no_duplicates(),
{
    assert forall|i: int, j: int| 0 <= i < s.len() && 0 <= j < s.len() && i != j implies s[i]
        != s[j] by {
        let (a, b) = if i < j {
            (i, j)
        } else {
            (j, i)
        };
        if s[a] == s[b] {
            assert(s[a + 1] != s[a]);
            assert(crate::order::chars_le(s[a], s[a + 1]));
            assert(crate::order::chars_lt(s[a], s[a + 1]));
            if a + 1 < b {
                assert(crate::order::chars_le(s[a + 1], s[b]));
                crate::order::lemma_lt_total(s[a], s[a + 1]);
            } else {
                assert(s[a + 1] == s[b]);
            }
        }
    }
}

proof fn lemma_dedup_sorted(s: Seq<Seq<char>>)
    requires
        sorted(s),
    ensures
        sorted(dedup_consecutive(s)),
        forall|x: Seq<char>| dedup_consecutive(s).contains(x) ==> s.contains(x),
    decreases s.len(),
{
    lemma_dedup_same_elements(s);
    if s.len() > 0 {
        let p = s.drop_last();
        assert(sorted(p)) by {
            assert forall|i: int, j: int| 0 <= i < j < p.len() implies crate::order::chars_le(
                #[trigger] p[i],
                #[trigger] p[j],
            ) by {
                assert(p[i] == s[i] && p[j] == s[j]);
            }
        }
        lemma_dedup_sorted(p);
        lemma_dedup_same_elements(p);
        let d = dedup_consecutive(p);
        if !(s.len() >= 2 && s.last() == s[s.len() - 2]) {
            assert forall|i: int, j: int|
                0 <= i < j < d.push(s.last()).len() implies crate::order::chars_le(
                #[trigger] d.push(s.last())[i],
                #[trigger] d.push(s.last())[j],
            ) by {
                if j < d.len() {
                    assert(d.push(s.last())[i] == d[i] && d.push(s.last())[j] == d[j]);
                } else {
                    assert(d.push(s.last())[i] == d[i]);
                    assert(d.contains(d[i]));
                    assert(p.contains(d[i]));
                    let k = choose|k: int| 0 <= k < p.len() && p[k] == d[i];
                    assert(s[k] == d[i]);
                    assert(crate::order::chars_le(s[k], s[s.len() - 1]));
                }
            }
        }
    }
}

/// The name a reference is linked under in `.forge/references/`: its final
/// path component. A reference without one is refused.
pub fn reference_link_name(reference: &str) -> (r: Result<String, ForgeError>)
    ensures
        r matches Ok(n) ==> file_name(reference@) == Some(n@),
        r is Err <==> file_name(reference@) is None,
        r matches Err(e) ==> (e matches ForgeError::InvalidReferencePath { reference: p } && p@
            == reference@),
{
    match path_file_name(reference) {
        Some(n) => Ok(n),
        None => Err(ForgeError::InvalidReferencePath { reference: to_owned_string(reference) }),
    }
}

/// The file name under which a stage's composed context shows a reference:
/// its final path component, or the whole reference when it has none.
pub fn reference_display_name(reference: &str) -> (r: String)
    ensures
        r@ == match file_name(reference@) {
            Some(n) => n,
            None => reference@,
        },
{
    match path_file_name(reference) {
        Some(n) => n,
        None => to_owned_string(reference),
    }
}

// ---------------------------------------------------------------------------
// Stage outputs
// ---------------------------------------------------------------------------

/// Where stage `i` (0-based) of a run writes its output inside `forge_dir`.
pub open spec fn stage_output_path(forge_dir: Seq<char>, run: PipelineRun, i: int) -> Seq<char> {
    path_join(forge_dir, output_file_name((i + 1) as nat, run.stages@[i].name@))
}

/// The output path of every stage of the run, in order.
pub fn stage_output_paths(forge_dir: &str, run: &PipelineRun) -> (r: Vec<String>)
    requires
        run.stages@.len() < usize::MAX,
    ensures
        r@.len() == run.stages@.len(),
        forall|i: int| 0 <= i < r@.len() ==> #[trigger] r@[i]@ == stage_output_path(forge_dir@, *run, i),
{
    let mut out: Vec<String> = Vec::new();
    let mut i: usize = 0;
    while i < run.stages.len()
        invariant
            i <= run.stages@.len(),
            run.stages@.len() < usize::MAX,
            out@.len() == i,
            forall|k: int| 0 <= k < i ==> #[trigger] out@[k]@ == stage_output_path(forge_dir@, *run, k),
        decreases run.stages@.len() - i,
    {
        let file = stage_output_filename(i + 1, run.stages[i].name.as_str());
        out.push(join_path(forge_dir, file.as_str()));
        i = i + 1;
    }
    out
}

/// Stage outputs chain: the `prev_output` variable of stage `i` (from the
/// second stage on) names exactly the file that stage `i - 1` writes.
pub proof fn law_stage_reads_previous_output(
    run: PipelineRun,
    i: int,
    stage: Seq<char>,
    forge_dir: Seq<char>,
    run_id: Seq<char>,
    pipeline: Seq<char>,
)
    requires
        1 <= i < run.stages@.len(),
    ensures
        template_vars(stage, i as nat, forge_dir, run_id, pipeline, Some(run.stages@[i - 1].name@)).last()
            == ("prev_output"@, stage_output_path(forge_dir, run, i - 1)),
{
}

/// A stage whose output counts as a result: completed, or awaiting review.
pub open spec fn finished(s: StageStatus) -> bool {
    s == StageStatus::Completed || s == StageStatus::Review
}

/// The last stage that is finished and whose output exists.
pub open spec fn last_output_stage(run: PipelineRun, exists: Seq<bool>, below: int) -> Option<int>
    decreases below,
{
    if below <= 0 {
        None
    } else if finished(run.stages@[below - 1].status) && exists[below - 1] {
        Some(below - 1)
    } else {
        last_output_stage(run, exists, below - 1)
    }
}

/// Picks the stage whose output becomes the final output: the last finished
/// stage whose output file exists (`exists[i]` tells whether stage `i`'s
/// output file is there).
pub fn pick_last_output(run: &PipelineRun, exists: &Vec<bool>) -> (r: Option<usize>)
    requires
        exists@.len() == run.stages@.len(),
    ensures
        r matches Some(i) ==> last_output_stage(*run, exists@, run.stages@.len() as int) == Some(
            i as int,
        ),
        r is None ==> last_output_stage(*run, exists@, run.stages@.len() as int) is None,
{
    let mut b: usize = run.stages.len();
    while b > 0
        invariant
            b <= run.stages@.len(),
            exists@.len() == run.stages@.len(),
            last_output_stage(*run, exists@, run.stages@.len() as int) == last_output_stage(
                *run,
                exists@,
                b as int,
            ),
        decreases b,
    {
        let st = run.stages[b - 1].status;
        if (st == StageStatus::Completed || st == StageStatus::Review) && exists[b - 1] {
            return Some(b - 1);
        }
        b = b - 1;
    }
    None
}

/// The output file of the last finished stage that has one, if any.
pub fn find_last_stage_output(forge_dir: &str, run: &PipelineRun) -> (r: Option<String>)
    requires
        run.stages@.len() < usize::MAX,
    ensures
        r matches Some(p) ==> exists|i: int|
            0 <= i < run.stages@.len() && finished(run.stages@[i].status) && p@
                == #[trigger] stage_output_path(forge_dir@, *run, i),
{
    let paths = stage_output_paths(forge_dir, run);
    let mut flags: Vec<bool> = Vec::new();
    let mut i: usize = 0;
    while i < paths.len()
        invariant
            i <= paths@.len(),
            flags@.len() == i,
        decreases paths@.len() - i,
    {
        flags.push(path_exists(paths[i].as_str()));
        i = i + 1;
    }
    match pick_last_output(run, &flags) {
        Some(k) => {
            proof {
                lemma_last_output_stage(*run, flags@, run.stages@.len() as int);
                assert(paths@[k as int]@ == stage_output_path(forge_dir@, *run, k as int));
            }
            Some(paths[k].clone())
        },
        None => None,
    }
}

proof fn lemma_last_output_stage(run: PipelineRun, exists: Seq<bool>, below: int)
    requires
        below <= run.stages@.len(),
        exists.len() == run.stages@.len(),
    ensures
        last_output_stage(run, exists, below) matches Some(i) ==> 0 <= i < below && finished(
            run.stages@[i].status,
        ) && exists[i],
    decreases below,
{
    if below > 0 {
        lemma_last_output_stage(run, exists, below - 1);
    }
}

/// The final output is the last one: of the stages whose output counts (finished,
/// with its file present), the chosen one has the highest index; none is chosen
/// only when no stage qualifies.
pub proof fn law_last_output_is_last(run: PipelineRun, exists: Seq<bool>)
    requires
        exists.len() == run.stages@.len(),
    ensures
        last_output_stage(run, exists, run.stages@.len() as int) matches Some(i) ==> 0 <= i
            < run.stages@.len() && finished(run.stages@[i].status) && exists[i] && forall|j: int|
            i < j < run.stages@.len() ==> !(finished(#[trigger] run.stages@[j].status) && exists[j]),
        last_output_stage(run, exists, run.stages@.len() as int) is None ==> forall|j: int|
            0 <= j < run.stages@.len() ==> !(finished(#[trigger] run.stages@[j].status) && exists[j]),
{
    lemma_last_output_maximal(run, exists, run.stages@.len() as int);
}

proof fn lemma_last_output_maximal(run: PipelineRun, exists: Seq<bool>, below: int)
    requires
        0 <= below <= run.stages@.len(),
        exists.len() == run.stages@.len(),
    ensures
        last_output_stage(run, exists, below) matches Some(i) ==> 0 <= i < below && finished(
            run.stages@[i].status,
        ) && exists[i] && forall|j: int|
            i < j < below ==> !(finished(#[trigger] run.stages@[j].status) && exists[j]),
        last_output_stage(run, exists, below) is None ==> forall|j: int|
            0 <= j < below ==> !(finished(#[trigger] run.stages@[j].status) && exists[j]),
    decreases below,
{
    if below > 0 {
        lemma_last_output_maximal(run, exists, below - 1);
    }
}

/// The status a run ends with when packed: completed when a final output was
/// written, abandoned when the run is given up or had no output to deliver.
pub fn pack_status(abandon: bool, final_output_written: bool) -> (s: RunStatus)
    ensures
        s == (if !abandon && final_output_written {
            RunStatus::Completed
        } else {
            RunStatus::Abandoned
        }),
{
    if !abandon && final_output_written {
        RunStatus::Completed
    } else {
        RunStatus::Abandoned
    }
}

// ---------------------------------------------------------------------------
// Final output name
// ---------------------------------------------------------------------------

/// The output file name from its template: `{date}` replaced by the date,
/// then `{slug}` by the slug (`output` when there is none).
pub open spec fn output_filename(template: Seq<char>, date: Seq<char>, slug: Option<Seq<char>>) -> Seq<
    char,
> {
    replace_all(
        replace_all(template, "{date}"@, date),
        "{slug}"@,
        match slug {
            Some(s) => s,
            None => "output"@,
        },
    )
}

/// Fills an output file name template with a date and a slug.
pub fn fill_output_filename(template: &str, date: &str, slug: Option<&str>) -> (r: String)
    ensures
        r@ == output_filename(
            template@,
            date@,
            opt_view(slug),
        ),
{
    proof {
        reveal_strlit("{date}");
        reveal_strlit("{slug}");
    }
    let with_date = replace_str(template, "{date}", date);
    let slug_value = match slug {
        Some(s) => s,
        None => "output",
    };
    replace_str(with_date.as_str(), "{slug}", slug_value)
}

/// An ASCII decimal digit.
pub open spec fn ascii_digit(c: char) -> bool {
    0x30 <= (c as u32) <= 0x39
}

/// A date as chrono's `%Y-%m-%d` writes it: the year (at least four digits,
/// with a leading `+` or `-` outside years 0 to 9999), `-`, the two-digit
/// month, `-`, the two-digit day.
pub open spec fn ymd_date(d: Seq<char>) -> bool {
    let n = d.len() as int;
    &&& n >= 10
    &&& d[n - 6] == '-' && d[n - 3] == '-'
    &&& ascii_digit(d[n - 5]) && ascii_digit(d[n - 4])
    &&& ascii_digit(d[n - 2]) && ascii_digit(d[n - 1])
    &&& forall|i: int|
        0 <= i < n - 6 ==> ascii_digit(#[trigger] d[i]) || (i == 0 && (d[0] == '+' || d[0] == '-'))
}

/// Today's local date (`chrono::Local::now().format("%Y-%m-%d")`).
///
/// Trusted: the text has the shape chrono documents for `%Y-%m-%d`
/// (format/strftime.rs: `%Y` zero-padded to four digits, signed outside
/// years 0 to 9999; `%m` and `%d` zero-padded to two digits). Which date it
/// is depends on the clock and the time zone and is not described.
#[verifier::external_body]
fn today() -> (d: String)
    ensures
        ymd_date(d@),
{
    chrono::Local::now().format("%Y-%m-%d").to_string()
}

/// The final output file name for a run packed today.
pub fn resolve_output_filename(template: &str, slug: Option<&str>) -> (r: String)
    ensures
        exists|date: Seq<char>|
            ymd_date(date) && r@ == #[trigger] output_filename(
                template@,
                date,
                opt_view(slug),
            ),
{
    let date = today();
    fill_output_filename(template, date.as_str(), slug)
}

// ---------------------------------------------------------------------------
// .gitignore
// ---------------------------------------------------------------------------

/// What to do with a `.gitignore` file.
#[derive(Debug, Clone)]
pub enum GitignoreChange {
    /// Leave the file as it is.
    Keep,
    /// Write this content.
    Write(String),
    /// Remove the file.
    Delete,
}

/// The line forge adds to `.gitignore`.
pub open spec fn forge_entry() -> Seq<char> {
    ".forge # forge-managed"@
}

/// Some line of `content` already ignores `.forge` (its trimmed form starts
/// with `.forge`, whoever wrote it).
pub open spec fn forge_listed(content: Seq<char>) -> bool {
    exists|k: int| 0 <= k < lines(content).len() && starts_with(trim(#[trigger] lines(content)[k]), ".forge"@)
}

/// A line that forge added: it mentions `.forge` and carries forge's marker.
pub open spec fn managed_line(line: Seq<char>) -> bool {
    seq_contains(line, ".forge"@) && seq_contains(line, "# forge-managed"@)
}

/// The lines that are not forge's own, in order.
pub open spec fn kept_lines(ls: Seq<Seq<char>>) -> Seq<Seq<char>>
    decreases ls.len(),
{
    if ls.len() == 0 {
        seq![]
    } else if managed_line(ls.last()) {
        kept_lines(ls.drop_last())
    } else {
        kept_lines(ls.drop_last()).push(ls.last())
    }
}

/// `s` ending with a newline (one is added when missing).
pub open spec fn with_final_newline(s: Seq<char>) -> Seq<char> {
    if ends_with(s, "\n"@) {
        s
    } else {
        s + "\n"@
    }
}

/// The `.gitignore` after unpacking: created with forge's line when absent;
/// untouched when some line already ignores `.forge`; otherwise forge's line
/// appended (after a newline, if the file lacks a final one).
pub open spec fn gitignore_added(content: Option<Seq<char>>) -> Option<Seq<char>> {
    match content {
        None => Some(forge_entry() + "\n"@),
        Some(c) => if forge_listed(c) {
            None
        } else {
            Some(with_final_newline(c) + forge_entry() + "\n"@)
        },
    }
}

/// The `.gitignore` after packing: forge's lines removed, the rest kept with
/// a final newline; `None` when nothing but whitespace remains (the file is
/// then removed).
pub open spec fn gitignore_removed(content: Seq<char>) -> Option<Seq<char>> {
    let rest = join(kept_lines(lines(content)), "\n"@);
    if all_white(rest) {
        None
    } else {
        Some(with_final_newline(rest))
    }
}

/// Whether `v` starts with `.forge`.
fn starts_with_forge(v: &Vec<char>) -> (b: bool)
    ensures
        b == starts_with(v@, ".forge"@),
{
    let p = chars_of(".forge");
    if v.len() < p.len() {
        return false;
    }
    let mut k: usize = 0;
    while k < p.len()
        invariant
            k <= p@.len(),
            p@ == ".forge"@,
            p@.len() <= v@.len(),
            forall|j: int| 0 <= j < k ==> v@[j] == p@[j],
        decreases p@.len() - k,
    {
        if v[k] != p[k] {
            assert(v@.subrange(0, p@.len() as int)[k as int] != p@[k as int]);
            return false;
        }
        k = k + 1;
    }
    assert(v@.subrange(0, p@.len() as int) =~= p@);
    true
}

/// Whether the last character is a newline.
fn ends_with_newline(v: &Vec<char>) -> (b: bool)
    ensures
        b == ends_with(v@, "\n"@),
{
    proof {
        reveal_strlit("\n");
    }
    let n = v.len();
    if n > 0 && v[n - 1] == '\n' {
        assert(v@.subrange(n - 1, n as int) =~= "\n"@);
        true
    } else {
        proof {
            if ends_with(v@, "\n"@) {
                assert(v@.subrange(n - 1, n as int)[0] == v@[n - 1]);
            }
        }
        false
    }
}

/// How `.gitignore` changes when a workspace is unpacked (`content` is the
/// current file, `None` when there is none).
pub fn gitignore_after_unpack(content: Option<&str>) -> (r: GitignoreChange)
    ensures
        gitignore_added(
            opt_view(content),
        ) matches Some(n) ==> (r matches GitignoreChange::Write(w) && w@ == n),
        gitignore_added(
            opt_view(content),
        ) is None ==> r matches GitignoreChange::Keep,
{
    let entry = chars_of(".forge # forge-managed\n");
    proof {
        reveal_strlit(".forge # forge-managed\n");
        reveal_strlit(".forge # forge-managed");
        reveal_strlit("\n");
        assert(entry@ =~= forge_entry() + "\n"@);
    }
    match content {
        None => GitignoreChange::Write(string_from_chars(&entry)),
        Some(c) => {
            let cv = chars_of(c);
            let ls = split_lines(&cv);
            let mut k: usize = 0;
            while k < ls.len()
                invariant
                    k <= ls@.len(),
                    cv@ == c@,
                    opt_view(content) == Some(c@),
                    ls@.len() == lines(cv@).len(),
                    forall|j: int| 0 <= j < ls@.len() ==> #[trigger] ls@[j]@ == lines(cv@)[j],
                    forall|j: int| 0 <= j < k ==> !starts_with(trim(#[trigger] lines(cv@)[j]), ".forge"@),
                decreases ls@.len() - k,
            {
                let t = trim_chars(&ls[k]);
                if starts_with_forge(&t) {
                    assert(starts_with(trim(lines(cv@)[k as int]), ".forge"@));
                    assert(forge_listed(c@));
                    assert(opt_view(content) == Some(c@));
                    assert(gitignore_added(opt_view(content)) is None);
                    return GitignoreChange::Keep;
                }
                k = k + 1;
            }
            let mut out = cv;
            if !ends_with_newline(&out) {
                out.push('\n');
                assert(out@ =~= cv@ + "\n"@);
            }
            append_chars(&mut out, &entry);
            assert(out@ =~= with_final_newline(cv@) + forge_entry() + "\n"@);
            GitignoreChange::Write(string_from_chars(&out))
        },
    }
}

/// Whether a line is one forge added.
fn is_managed(line: &Vec<char>) -> (b: bool)
    ensures
        b == managed_line(line@),
{
    let a = chars_of(".forge");
    let m = chars_of("# forge-managed");
    contains_chars(line, &a) && contains_chars(line, &m)
}

/// How `.gitignore` changes when a workspace is packed (`content` is the
/// current file).
pub fn gitignore_after_pack(content: &str) -> (r: GitignoreChange)
    ensures
        gitignore_removed(content@) matches Some(n) ==> (r matches GitignoreChange::Write(w) && w@
            == n),
        gitignore_removed(content@) is None ==> r matches GitignoreChange::Delete,
{
    let cv = chars_of(content);
    let ls = split_lines(&cv);
    let ghost lv = lines(cv@);
    let mut kept: Vec<Vec<char>> = Vec::new();
    let mut k: usize = 0;
    while k < ls.len()
        invariant
            k <= ls@.len(),
            ls@.len() == lv.len(),
            lv == lines(cv@),
            forall|j: int| 0 <= j < ls@.len() ==> #[trigger] ls@[j]@ == lv[j],
            kept@.map_values(|p: Vec<char>| p@) == kept_lines(lv.take(k as int)),
        decreases ls@.len() - k,
    {
        proof {
            assert(lv.take(k + 1).drop_last() =~= lv.take(k as int));
            assert(lv.take(k + 1).last() == lv[k as int]);
        }
        if !is_managed(&ls[k]) {
            let ghost before = kept@.map_values(|p: Vec<char>| p@);
            kept.push(ls[k].clone());
            assert(kept@.map_values(|p: Vec<char>| p@) =~= before.push(lv[k as int]));
        }
        k = k + 1;
    }
    assert(lv.take(k as int) =~= lv);
    let joined = join_chars(&kept, &chars_of("\n"));
    let t = trim_chars(&joined);
    proof {
        lemma_trim_empty(joined@);
    }
    if t.len() == 0 {
        return GitignoreChange::Delete;
    }
    let mut out = joined;
    if !ends_with_newline(&out) {
        let ghost j0 = out@;
        out.push('\n');
        proof {
            reveal_strlit("\n");
            assert(out@ =~= j0 + "\n"@);
        }
    }
    GitignoreChange::Write(string_from_chars(&out))
}

// ---------------------------------------------------------------------------
// Laws of .gitignore management
// ---------------------------------------------------------------------------

proof fn lemma_lines_append(a: Seq<char>, b: Seq<char>, cur: Seq<char>)
    requires
        a.len() > 0,
        a.last() == '\n',
    ensures
        lines_from(a + b, cur) == lines_from(a, cur) + lines_from(b, seq![]),
    decreases a.len(),
{
    assert((a + b).drop_first() =~= a.drop_first() + b);
    assert((a + b)[0] == a[0]);
    if a[0] == '\n' {
        if a.len() == 1 {
            assert(a.drop_first() + b =~= b);
            assert(lines_from(a.drop_first(), seq![]) == Seq::<Seq<char>>::empty());
            assert(seq![strip_cr(cur)] + Seq::<Seq<char>>::empty() =~= seq![strip_cr(cur)]);
        } else {
            assert(a.drop_first().last() == a.last());
            lemma_lines_append(a.drop_first(), b, seq![]);
            assert(seq![strip_cr(cur)] + (lines_from(a.drop_first(), seq![]) + lines_from(b, seq![]))
                =~= (seq![strip_cr(cur)] + lines_from(a.drop_first(), seq![])) + lines_from(
                b,
                seq![],
            ));
        }
    } else {
        assert(a.drop_first().last() == a.last());
        lemma_lines_append(a.drop_first(), b, cur.push(a[0]));
    }
}

/// Each line followed by a newline, all concatenated.
spec fn terminated(ls: Seq<Seq<char>>) -> Seq<char>
    decreases ls.len(),
{
    if ls.len() == 0 {
        seq![]
    } else {
        terminated(ls.drop_last()) + ls.last() + "\n"@
    }
}

proof fn lemma_terminated_cons(x: Seq<char>, ls: Seq<Seq<char>>)
    ensures
        terminated(seq![x] + ls) == x + "\n"@ + terminated(ls),
    decreases ls.len(),
{
    if ls.len() == 0 {
        assert(seq![x] + ls =~= seq![x]);
        assert(seq![x].drop_last() =~= Seq::<Seq<char>>::empty());
        assert(terminated(Seq::<Seq<char>>::empty()) == Seq::<char>::empty());
        assert(terminated(seq![x]) == terminated(seq![x].drop_last()) + seq![x].last() + "\n"@);
        assert(terminated(ls) == Seq::<char>::empty());
        assert(Seq::<char>::empty() + x + "\n"@ =~= x + "\n"@ + Seq::<char>::empty());
    } else {
        let xl = seq![x] + ls;
        assert(xl.drop_last() =~= seq![x] + ls.drop_last());
        assert(xl.last() == ls.last());
        assert(terminated(xl) == terminated(xl.drop_last()) + xl.last() + "\n"@);
        assert(terminated(ls) == terminated(ls.drop_last()) + ls.last() + "\n"@);
        lemma_terminated_cons(x, ls.drop_last());
        assert((x + "\n"@ + terminated(ls.drop_last())) + ls.last() + "\n"@ =~= x + "\n"@ + (
        terminated(ls.drop_last()) + ls.last() + "\n"@));
    }
}

proof fn lemma_lines_terminated(s: Seq<char>, cur: Seq<char>)
    requires
        (s.len() > 0 && s.last() == '\n') || (s.len() == 0 && cur.len() == 0),
        !s.contains('\r'),
        !cur.contains('\r'),
    ensures
        terminated(lines_from(s, cur)) == cur + s,
    decreases s.len(),
{
    reveal_strlit("\n");
    if s.len() == 0 {
        assert(cur + s =~= Seq::<char>::empty());
    } else if s[0] == '\n' {
        let rest = s.drop_first();
        assert(!rest.contains('\r')) by {
            if rest.contains('\r') {
                let k = choose|k: int| 0 <= k < rest.len() && rest[k] == '\r';
                assert(s[k + 1] == '\r');
            }
        }
        assert(strip_cr(cur) == cur) by {
            if cur.len() > 0 && cur.last() == '\r' {
                assert(cur[cur.len() - 1] == '\r');
            }
        }
        if rest.len() > 0 {
            assert(rest.last() == s.last());
        }
        lemma_lines_terminated(rest, seq![]);
        lemma_terminated_cons(cur, lines_from(rest, seq![]));
        assert(cur + "\n"@ + (Seq::<char>::empty() + rest) =~= cur + s);
    } else {
        let rest = s.drop_first();
        assert(!rest.contains('\r')) by {
            if rest.contains('\r') {
                let k = choose|k: int| 0 <= k < rest.len() && rest[k] == '\r';
                assert(s[k + 1] == '\r');
            }
        }
        assert(!cur.push(s[0]).contains('\r')) by {
            if cur.push(s[0]).contains('\r') {
                let k = choose|k: int| 0 <= k < cur.push(s[0]).len() && cur.push(s[0])[k] == '\r';
                if k < cur.len() {
                    assert(cur[k] == '\r');
                } else {
                    assert(s[0] == '\r');
                }
            }
        }
        assert(rest.last() == s.last());
        lemma_lines_terminated(rest, cur.push(s[0]));
        assert(cur.push(s[0]) + rest =~= cur + s);
    }
}

proof fn lemma_join_terminated(ls: Seq<Seq<char>>)
    requires
        ls.len() > 0,
    ensures
        join(ls, "\n"@) + "\n"@ == terminated(ls),
    decreases ls.len(),
{
    if ls.len() == 1 {
        assert(ls.drop_last().len() == 0);
        assert(join(ls, "\n"@) == ls[0]);
        assert(terminated(ls.drop_last()) == Seq::<char>::empty());
        assert(terminated(ls) == terminated(ls.drop_last()) + ls.last() + "\n"@);
        assert(Seq::<char>::empty() + ls.last() + "\n"@ =~= ls[0] + "\n"@);
    } else {
        assert(join(ls, "\n"@) == join(ls.drop_last(), "\n"@) + "\n"@ + ls.last());
        assert(terminated(ls) == terminated(ls.drop_last()) + ls.last() + "\n"@);
        lemma_join_terminated(ls.drop_last());
        assert(join(ls.drop_last(), "\n"@) + "\n"@ + ls.last() + "\n"@ =~= (join(
            ls.drop_last(),
            "\n"@,
        ) + "\n"@) + ls.last() + "\n"@);
    }
}

proof fn lemma_kept_lines_untouched(ls: Seq<Seq<char>>)
    requires
        forall|k: int| 0 <= k < ls.len() ==> !managed_line(#[trigger] ls[k]),
    ensures
        kept_lines(ls) == ls,
    decreases ls.len(),
{
    if ls.len() > 0 {
        assert(!managed_line(ls[ls.len() - 1]));
        assert forall|k: int| 0 <= k < ls.drop_last().len() implies !managed_line(
            #[trigger] ls.drop_last()[k],
        ) by {
            assert(ls.drop_last()[k] == ls[k]);
        }
        lemma_kept_lines_untouched(ls.drop_last());
        assert(ls.drop_last().push(ls.last()) =~= ls);
    }
}

proof fn lemma_entry_facts()
    ensures
        managed_line(forge_entry()),
        lines(forge_entry() + "\n"@) == seq![forge_entry()],
{
    reveal_strlit(".forge # forge-managed");
    reveal_strlit(".forge");
    reveal_strlit("# forge-managed");
    reveal_strlit("\n");
    let e = forge_entry();
    assert(e.subrange(0, 6) =~= ".forge"@);
    assert(crate::text::occurs_at(e, ".forge"@, 0));
    assert(e.subrange(7, 22) =~= "# forge-managed"@);
    assert(crate::text::occurs_at(e, "# forge-managed"@, 7));
    lemma_lines_no_newline(e, seq![]);
    assert(seq![] + e =~= e);
    assert(strip_cr(e) == e);
}

proof fn lemma_lines_no_newline(p: Seq<char>, cur: Seq<char>)
    requires
        !p.contains('\n'),
    ensures
        lines_from(p + "\n"@, cur) == seq![strip_cr(cur + p)],
    decreases p.len(),
{
    reveal_strlit("\n");
    if p.len() == 0 {
        assert(p + "\n"@ =~= seq!['\n']);
        assert(seq!['\n'].drop_first() =~= Seq::<char>::empty());
        assert(seq!['\n'][0] == '\n');
        assert(lines_from(Seq::<char>::empty(), seq![]) == Seq::<Seq<char>>::empty());
        assert(lines_from(seq!['\n'], cur) == seq![strip_cr(cur)] + lines_from(
            seq!['\n'].drop_first(),
            seq![],
        ));
        assert(cur + p =~= cur);
        assert(seq![strip_cr(cur)] + Seq::<Seq<char>>::empty() =~= seq![strip_cr(cur)]);
    } else {
        assert((p + "\n"@)[0] == p[0]);
        assert(p[0] != '\n');
        assert((p + "\n"@).drop_first() =~= p.drop_first() + "\n"@);
        assert(!p.drop_first().contains('\n')) by {
            if p.drop_first().contains('\n') {
                let k = choose|k: int| 0 <= k < p.drop_first().len() && p.drop_first()[k] == '\n';
                assert(p[k + 1] == '\n');
            }
        }
        lemma_lines_no_newline(p.drop_first(), cur.push(p[0]));
        assert(cur.push(p[0]) + p.drop_first() =~= cur + p);
    }
}

/// Unpacking then packing restores `.gitignore`: when the file ends in a
/// newline (with no blank last line and no carriage returns), has no line
/// ignoring `.forge` and no forge-managed line, and is not blank, unpacking
/// appends forge's line and packing gives back exactly the original content.
pub proof fn law_gitignore_round_trip(c: Seq<char>)
    requires
        c.len() > 0,
        c.last() == '\n',
        !(c.len() >= 2 && c[c.len() - 2] == '\n'),
        !c.contains('\r'),
        !forge_listed(c),
        forall|k: int| 0 <= k < lines(c).len() ==> !managed_line(#[trigger] lines(c)[k]),
        !all_white(c.drop_last()),
    ensures
        gitignore_added(Some(c)) == Some(c + forge_entry() + "\n"@),
        gitignore_removed(c + forge_entry() + "\n"@) == Some(c),
{
    reveal_strlit("\n");
    lemma_entry_facts();
    let e = forge_entry();
    assert(ends_with(c, "\n"@)) by {
        assert(c.subrange(c.len() - 1, c.len() as int) =~= "\n"@);
    }
    assert(with_final_newline(c) == c);
    let added = c + e + "\n"@;
    assert(added =~= c + (e + "\n"@));
    lemma_lines_append(c, e + "\n"@, seq![]);
    let lc = lines(c);
    assert(lines(added) == lc + seq![e]);
    assert((lc + seq![e]).drop_last() =~= lc);
    assert(kept_lines(lc + seq![e]) == kept_lines(lc));
    lemma_kept_lines_untouched(lc);
    lemma_lines_terminated(c, seq![]);
    assert(Seq::<char>::empty() + c =~= c);
    assert(lc.len() > 0);
    lemma_join_terminated(lc);
    let rest = join(lc, "\n"@);
    assert(rest + "\n"@ == c);
    assert(rest =~= c.drop_last()) by {
        assert(rest.len() + 1 == c.len());
        assert forall|k: int| 0 <= k < rest.len() implies rest[k] == c.drop_last()[k] by {
            assert((rest + "\n"@)[k] == rest[k]);
        }
    }
    assert(!ends_with(rest, "\n"@)) by {
        if ends_with(rest, "\n"@) {
            assert(rest.subrange(rest.len() - 1, rest.len() as int)[0] == rest[rest.len() - 1]);
            assert(c[c.len() - 2] == rest[rest.len() - 1]);
        }
    }
    assert(with_final_newline(rest) == c);
}

/// Without a `.gitignore`, unpacking creates one holding forge's line, and
/// packing removes the file again.
pub proof fn law_gitignore_fresh_round_trip()
    ensures
        gitignore_added(None) == Some(forge_entry() + "\n"@),
        gitignore_removed(forge_entry() + "\n"@) is None,
{
    lemma_entry_facts();
    let e = forge_entry();
    assert(seq![e].drop_last() =~= Seq::<Seq<char>>::empty());
    assert(seq![e].last() == e);
    assert(kept_lines(seq![e]) == kept_lines(seq![e].drop_last()));
    assert(kept_lines(Seq::<Seq<char>>::empty()) == Seq::<Seq<char>>::empty());
    assert(kept_lines(seq![e]) == Seq::<Seq<char>>::empty());
    assert(all_white(join(Seq::<Seq<char>>::empty(), "\n"@)));
}

} // verus!
