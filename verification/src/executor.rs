//! The stage state machine of a run, and what a stage's command is given:
//! expanded arguments, environment, and the composed context on stdin.

use vstd::prelude::*;

use crate::error::ForgeError;
use crate::paths::{join_path, path_join};
use crate::pipeline::{Pipeline, stage_entries, stage_position};
use crate::store::{now_ms, PipelineRun, RunStatus, StageRecord, StageStatus};
use crate::text::{
    append_chars, chars_of, decimal, decimal2, join, join_chars, opt_view, replace_all,
    replace_chars, seq_contains, string_from_chars, to_owned_string, two_digit_chars,
    usize_to_string,
};

verus! {

// ---------------------------------------------------------------------------
// Stage selection
// ---------------------------------------------------------------------------

/// A stage that still has to run: never run, or failed and to be retried.
pub open spec fn actionable(s: StageStatus) -> bool {
    s == StageStatus::Pending || s == StageStatus::Failed
}

/// The statuses of a run's stages, in order.
pub open spec fn statuses(stages: Seq<StageRecord>) -> Seq<StageStatus> {
    Seq::new(stages.len(), |i: int| stages[i].status)
}

/// The first actionable stage at or after `from`.
pub open spec fn next_actionable(ss: Seq<StageStatus>, from: int) -> Option<int>
    decreases ss.len() - from,
{
    if from < 0 || from >= ss.len() {
        None
    } else if actionable(ss[from]) {
        Some(from)
    } else {
        next_actionable(ss, from + 1)
    }
}

/// The stage a plain `forge run` acts on: the current stage when it awaits
/// review (so that it gets approved), otherwise the next actionable stage
/// from the current one.
pub open spec fn selected_stage(ss: Seq<StageStatus>, current: int) -> Option<int> {
    if 0 <= current < ss.len() && ss[current] == StageStatus::Review {
        Some(current)
    } else {
        next_actionable(ss, current)
    }
}

/// What `next_actionable` returns is actionable, in range, and the first one.
pub proof fn lemma_next_actionable(ss: Seq<StageStatus>, from: int)
    requires
        0 <= from,
    ensures
        next_actionable(ss, from) matches Some(i) ==> from <= i < ss.len() && actionable(ss[i])
            && forall|j: int| from <= j < i ==> !actionable(#[trigger] ss[j]),
        next_actionable(ss, from) is None ==> forall|j: int|
            from <= j < ss.len() ==> !actionable(#[trigger] ss[j]),
    decreases ss.len() - from,
{
    if from < ss.len() && !actionable(ss[from]) {
        lemma_next_actionable(ss, from + 1);
    }
}

/// The first stage at or after `from` that is pending or failed.
pub fn find_next_pending(run: &PipelineRun, from: usize) -> (r: Option<usize>)
    ensures
        r matches Some(i) ==> next_actionable(statuses(run.stages@), from as int) == Some(i as int),
        r is None ==> next_actionable(statuses(run.stages@), from as int) is None,
{
    let ghost ss = statuses(run.stages@);
    let mut i: usize = from;
    while i < run.stages.len()
        invariant
            from <= i,
            ss == statuses(run.stages@),
            next_actionable(ss, from as int) == next_actionable(ss, i as int),
        decreases run.stages@.len() - i,
    {
        let st = run.stages[i].status;
        if st == StageStatus::Pending || st == StageStatus::Failed {
            return Some(i);
        }
        i = i + 1;
    }
    None
}

/// The stage to act on: the named one, or (without a name) the current stage
/// when it awaits review, else the next pending or failed one.
pub fn determine_stage_index(run: &PipelineRun, pipeline: &Pipeline, stage_name: Option<&str>) -> (r:
    Result<usize, ForgeError>)
    ensures
        stage_name matches Some(n) ==> ((r matches Ok(i) ==> i < stage_entries(pipeline.stages).len()
            && stage_entries(pipeline.stages)[i as int].0 == n@) && (r is Err <==> forall|j: int|
            0 <= j < stage_entries(pipeline.stages).len() ==> stage_entries(pipeline.stages)[j].0
                != n@) && (r matches Err(e) ==> (e matches ForgeError::UnknownStage {
            stage,
            pipeline: p,
        } && stage@ == n@ && p@ == pipeline.name@))),
        stage_name is None ==> (r matches Ok(i) ==> selected_stage(
            statuses(run.stages@),
            run.current_stage as int,
        ) == Some(i as int)),
        stage_name is None ==> (r is Err <==> selected_stage(
            statuses(run.stages@),
            run.current_stage as int,
        ) is None),
        stage_name is None ==> (r matches Err(e) ==> e matches ForgeError::AllStagesComplete),
{
    match stage_name {
        Some(name) => match stage_position(&pipeline.stages, name) {
            Some(i) => Ok(i),
            None => Err(
                ForgeError::UnknownStage {
                    stage: to_owned_string(name),
                    pipeline: pipeline.name.clone(),
                },
            ),
        },
        None => {
            let cur = run.current_stage;
            if cur < run.stages.len() && run.stages[cur].status == StageStatus::Review {
                return Ok(cur);
            }
            match find_next_pending(run, cur) {
                Some(i) => Ok(i),
                None => Err(ForgeError::AllStagesComplete),
            }
        },
    }
}

// ---------------------------------------------------------------------------
// Transitions
// ---------------------------------------------------------------------------

/// The run is unchanged but for its stages, status, current stage and time
/// stamp.
pub open spec fn same_run_identity(a: PipelineRun, b: PipelineRun) -> bool {
    &&& a.id == b.id
    &&& a.pipeline == b.pipeline
    &&& a.working_dir == b.working_dir
    &&& a.created_at == b.created_at
    &&& a.input == b.input
    &&& a.slug == b.slug
    &&& a.final_destination == b.final_destination
}

/// Stage `i` of `b` is stage `i` of `a` with a new status; every other stage
/// is untouched.
pub open spec fn only_stage_changed(a: Seq<StageRecord>, b: Seq<StageRecord>, i: int) -> bool {
    &&& a.len() == b.len()
    &&& forall|j: int| 0 <= j < a.len() && j != i ==> #[trigger] b[j] == a[j]
    &&& b[i].name == a[i].name
    &&& b[i].artifact_path == a[i].artifact_path
}

/// Marks stage `index` as running: the stage becomes `InProgress` with a start
/// time, the run becomes `InProgress` and positioned at that stage.
pub fn begin_stage(run: &mut PipelineRun, index: usize)
    requires
        index < old(run).stages@.len(),
    ensures
        same_run_identity(*old(run), *final(run)),
        only_stage_changed(old(run).stages@, final(run).stages@, index as int),
        statuses(final(run).stages@) == statuses(old(run).stages@).update(
            index as int,
            StageStatus::InProgress,
        ),
        final(run).stages@[index as int].started_at is Some,
        final(run).stages@[index as int].completed_at == old(run).stages@[index as int].completed_at,
        final(run).status == RunStatus::InProgress,
        final(run).current_stage == index,
{
    let now = now_ms();
    run.stages[index].status = StageStatus::InProgress;
    run.stages[index].started_at = Some(now);
    run.status = RunStatus::InProgress;
    run.current_stage = index;
    run.touch();
    assert(statuses(run.stages@) =~= statuses(old(run).stages@).update(
        index as int,
        StageStatus::InProgress,
    ));
}

/// Marks stage `index` as failed, so that it is retried by the next run.
pub fn fail_stage(run: &mut PipelineRun, index: usize)
    requires
        index < old(run).stages@.len(),
    ensures
        same_run_identity(*old(run), *final(run)),
        only_stage_changed(old(run).stages@, final(run).stages@, index as int),
        statuses(final(run).stages@) == statuses(old(run).stages@).update(
            index as int,
            StageStatus::Failed,
        ),
        final(run).stages@[index as int].started_at == old(run).stages@[index as int].started_at,
        final(run).stages@[index as int].completed_at == old(run).stages@[index as int].completed_at,
        final(run).status == old(run).status,
        final(run).current_stage == old(run).current_stage,
{
    run.stages[index].status = StageStatus::Failed;
    run.touch();
    assert(statuses(run.stages@) =~= statuses(old(run).stages@).update(
        index as int,
        StageStatus::Failed,
    ));
}

/// The status a stage takes once its output is written: `Review` behind a
/// review gate, `Completed` otherwise.
pub open spec fn settled_status(review: bool) -> StageStatus {
    if review {
        StageStatus::Review
    } else {
        StageStatus::Completed
    }
}

/// Records that stage `index` produced its output: it awaits review when the
/// stage has a review gate, and is completed (with a completion time)
/// otherwise.
pub fn settle_stage(run: &mut PipelineRun, index: usize, review: bool)
    requires
        index < old(run).stages@.len(),
    ensures
        same_run_identity(*old(run), *final(run)),
        only_stage_changed(old(run).stages@, final(run).stages@, index as int),
        statuses(final(run).stages@) == statuses(old(run).stages@).update(
            index as int,
            settled_status(review),
        ),
        final(run).stages@[index as int].started_at == old(run).stages@[index as int].started_at,
        review ==> final(run).stages@[index as int].completed_at == old(
            run,
        ).stages@[index as int].completed_at,
        !review ==> final(run).stages@[index as int].completed_at is Some,
        final(run).status == old(run).status,
        final(run).current_stage == old(run).current_stage,
{
    if review {
        run.stages[index].status = StageStatus::Review;
    } else {
        let now = now_ms();
        run.stages[index].status = StageStatus::Completed;
        run.stages[index].completed_at = Some(now);
    }
    run.touch();
    assert(statuses(run.stages@) =~= statuses(old(run).stages@).update(
        index as int,
        settled_status(review),
    ));
}

/// Approves stage `index`, which awaits review: it becomes completed, with a
/// completion time.
pub fn approve_stage(run: &mut PipelineRun, index: usize)
    requires
        index < old(run).stages@.len(),
        old(run).stages@[index as int].status == StageStatus::Review,
    ensures
        same_run_identity(*old(run), *final(run)),
        only_stage_changed(old(run).stages@, final(run).stages@, index as int),
        statuses(final(run).stages@) == statuses(old(run).stages@).update(
            index as int,
            StageStatus::Completed,
        ),
        final(run).stages@[index as int].started_at == old(run).stages@[index as int].started_at,
        final(run).stages@[index as int].completed_at is Some,
        final(run).status == old(run).status,
        final(run).current_stage == old(run).current_stage,
        final(run).updated_at == old(run).updated_at,
{
    let now = now_ms();
    run.stages[index].status = StageStatus::Completed;
    run.stages[index].completed_at = Some(now);
    assert(statuses(run.stages@) =~= statuses(old(run).stages@).update(
        index as int,
        StageStatus::Completed,
    ));
}

/// Moves the run on from `from`: positions it at the next pending or failed
/// stage and returns that stage, or, when none is left, marks the run
/// completed and returns `None`.
pub fn advance_run(run: &mut PipelineRun, from: usize) -> (r: Option<usize>)
    ensures
        same_run_identity(*old(run), *final(run)),
        final(run).stages == old(run).stages,
        r matches Some(n) ==> next_actionable(statuses(old(run).stages@), from as int) == Some(
            n as int,
        ) && final(run).current_stage == n && final(run).status == old(run).status,
        r is None ==> next_actionable(statuses(old(run).stages@), from as int) is None
            && final(run).status == RunStatus::Completed && final(run).current_stage == old(
            run,
        ).current_stage,
{
    let next = find_next_pending(run, from);
    match next {
        Some(n) => {
            run.current_stage = n;
        },
        None => {
            run.status = RunStatus::Completed;
        },
    }
    run.touch();
    next
}

/// Where a run stands once a stage has produced its output.
#[derive(Debug, Clone, Copy, PartialEq, Eq, Structural)]
pub enum StageOutcome {
    /// The stage awaits review; the run stays at it.
    AwaitingReview,
    /// The run moved on to this stage.
    Next(usize),
    /// No stage is left to run; the run is completed.
    AllComplete,
}

/// Records that stage `index` produced its output and moves the run on: a
/// stage behind a review gate awaits review and the run stays where it is;
/// otherwise the stage is completed and the run goes to the next pending or
/// failed stage after it, or is completed when there is none.
pub fn complete_stage(run: &mut PipelineRun, index: usize, review: bool) -> (r: StageOutcome)
    requires
        index < old(run).stages@.len(),
    ensures
        same_run_identity(*old(run), *final(run)),
        only_stage_changed(old(run).stages@, final(run).stages@, index as int),
        statuses(final(run).stages@) == statuses(old(run).stages@).update(
            index as int,
            settled_status(review),
        ),
        final(run).stages@[index as int].started_at == old(run).stages@[index as int].started_at,
        review ==> final(run).stages@[index as int].completed_at == old(
            run,
        ).stages@[index as int].completed_at,
        !review ==> final(run).stages@[index as int].completed_at is Some,
        review ==> r == StageOutcome::AwaitingReview && final(run).status == old(run).status
            && final(run).current_stage == old(run).current_stage,
        !review ==> match next_actionable(
            statuses(old(run).stages@).update(index as int, StageStatus::Completed),
            index + 1,
        ) {
            Some(n) => r == StageOutcome::Next(n as usize) && final(run).current_stage == n
                && final(run).status == old(run).status,
            None => r == StageOutcome::AllComplete && final(run).status == RunStatus::Completed
                && final(run).current_stage == old(run).current_stage,
        },
{
    let count = run.stages.len();
    settle_stage(run, index, review);
    if review {
        StageOutcome::AwaitingReview
    } else {
        assert(index < count);
        match advance_run(run, index + 1) {
            Some(n) => StageOutcome::Next(n),
            None => StageOutcome::AllComplete,
        }
    }
}

// ---------------------------------------------------------------------------
// Laws of the stage state machine
// ---------------------------------------------------------------------------

/// Review gate: once the current stage has run behind a review gate, a plain
/// `forge run` selects that same stage again (to approve it) instead of
/// moving on.
pub proof fn law_review_gate_holds_the_run(ss: Seq<StageStatus>, i: int)
    requires
        0 <= i < ss.len(),
    ensures
        selected_stage(
            ss.update(i, StageStatus::InProgress).update(i, settled_status(true)),
            i,
        ) == Some(i),
{
}

/// Without a review gate, a finished stage is never selected again: the next
/// plain `forge run` goes to the first pending or failed stage after it.
pub proof fn law_completed_stage_moves_on(ss: Seq<StageStatus>, i: int)
    requires
        0 <= i < ss.len(),
    ensures
        selected_stage(
            ss.update(i, StageStatus::InProgress).update(i, settled_status(false)),
            i,
        ) == next_actionable(ss, i + 1),
{
    let s2 = ss.update(i, StageStatus::InProgress).update(i, settled_status(false));
    assert(!actionable(s2[i]));
    lemma_next_actionable_same_tail(s2, ss, i + 1);
}

/// Approving a stage under review leaves the choice of the next stage to the
/// stages after it.
pub proof fn law_approval_moves_on(ss: Seq<StageStatus>, i: int)
    requires
        0 <= i < ss.len(),
        ss[i] == StageStatus::Review,
    ensures
        next_actionable(ss.update(i, StageStatus::Completed), i + 1) == next_actionable(ss, i + 1),
        selected_stage(ss.update(i, StageStatus::Completed), i) == next_actionable(ss, i + 1),
{
    let s2 = ss.update(i, StageStatus::Completed);
    lemma_next_actionable_same_tail(s2, ss, i + 1);
}

/// A failed stage is retried: when the current stage fails, a plain
/// `forge run` selects it again.
pub proof fn law_failed_stage_is_retried(ss: Seq<StageStatus>, i: int)
    requires
        0 <= i < ss.len(),
    ensures
        selected_stage(ss.update(i, StageStatus::Failed), i) == Some(i),
{
}

/// A completed run has nothing left to select from where it stopped.
pub proof fn law_nothing_left_after_completion(ss: Seq<StageStatus>, from: int)
    requires
        0 <= from,
        next_actionable(ss, from) is None,
    ensures
        forall|j: int| from <= j < ss.len() ==> !actionable(#[trigger] ss[j]),
{
    lemma_next_actionable(ss, from);
}

proof fn lemma_next_actionable_same_tail(a: Seq<StageStatus>, b: Seq<StageStatus>, from: int)
    requires
        a.len() == b.len(),
        0 <= from,
        forall|j: int| from <= j < a.len() ==> a[j] == b[j],
    ensures
        next_actionable(a, from) == next_actionable(b, from),
    decreases a.len() - from,
{
    if from < a.len() {
        lemma_next_actionable_same_tail(a, b, from + 1);
    }
}

// ---------------------------------------------------------------------------
// Output files
// ---------------------------------------------------------------------------

/// The output file of the stage numbered `number` (1-based) named `name`:
/// `NN-name.md` with the number zero-padded to two digits.
pub open spec fn output_file_name(number: nat, name: Seq<char>) -> Seq<char> {
    decimal2(number) + "-"@ + name + ".md"@
}

/// The output file name of a stage (`format!("{:02}-{}.md", number, name)`).
pub fn stage_output_filename(number: usize, name: &str) -> (r: String)
    ensures
        r@ == output_file_name(number as nat, name@),
{
    let mut v = two_digit_chars(number);
    let dash = chars_of("-");
    let n = chars_of(name);
    let md = chars_of(".md");
    append_chars(&mut v, &dash);
    append_chars(&mut v, &n);
    append_chars(&mut v, &md);
    string_from_chars(&v)
}

// ---------------------------------------------------------------------------
// Template expansion
// ---------------------------------------------------------------------------

/// The placeholder for a variable: its name in braces.
pub open spec fn placeholder(key: Seq<char>) -> Seq<char> {
    seq!['{'] + key + seq!['}']
}

/// `arg` with the placeholder of each variable replaced by its value, one
/// variable after the other in the order given.
pub open spec fn expand(arg: Seq<char>, vars: Seq<(Seq<char>, Seq<char>)>) -> Seq<char>
    decreases vars.len(),
{
    if vars.len() == 0 {
        arg
    } else {
        replace_all(expand(arg, vars.drop_last()), placeholder(vars.last().0), vars.last().1)
    }
}

/// Replaces `{name}` by the variable's value for every variable, in order;
/// placeholders of unknown names are left as they are.
pub fn expand_template(arg: &str, vars: &Vec<(String, String)>) -> (r: String)
    ensures
        r@ == expand(arg@, vars.deep_view()),
{
    let ghost vs = vars.deep_view();
    let mut cur = chars_of(arg);
    let mut i: usize = 0;
    while i < vars.len()
        invariant
            i <= vars@.len(),
            vs == vars.deep_view(),
            cur@ == expand(arg@, vs.take(i as int)),
        decreases vars@.len() - i,
    {
        let mut pat: Vec<char> = Vec::new();
        pat.push('{');
        let key = chars_of(vars[i].0.as_str());
        append_chars(&mut pat, &key);
        pat.push('}');
        let val = chars_of(vars[i].1.as_str());
        proof {
            assert(pat@ =~= placeholder(vs[i as int].0));
            assert(vs.take(i + 1).drop_last() =~= vs.take(i as int));
        }
        cur = replace_chars(&cur, &pat, &val);
        i = i + 1;
    }
    assert(vs.take(i as int) =~= vs);
    string_from_chars(&cur)
}

/// An argument without any `{` is never changed by expansion.
pub proof fn law_expansion_leaves_plain_text(arg: Seq<char>, vars: Seq<(Seq<char>, Seq<char>)>)
    requires
        !arg.contains('{'),
    ensures
        expand(arg, vars) == arg,
    decreases vars.len(),
{
    if vars.len() > 0 {
        law_expansion_leaves_plain_text(arg, vars.drop_last());
        let pat = placeholder(vars.last().0);
        assert(!seq_contains(arg, pat)) by {
            if seq_contains(arg, pat) {
                let i = choose|i: int| crate::text::occurs_at(arg, pat, i);
                assert(arg.subrange(i, i + pat.len())[0] == '{');
                assert(arg[i] == '{');
            }
        }
        crate::text::lemma_replace_absent(arg, pat, vars.last().1);
    }
}

/// The variables a stage's arguments may use, in this order: `stage`,
/// `stage_num` (1-based), `forge_dir`, `run_id`, `pipeline`, and, from the
/// second stage on, `prev_output` (the previous stage's output file).
pub open spec fn template_vars(
    stage: Seq<char>,
    stage_index: nat,
    forge_dir: Seq<char>,
    run_id: Seq<char>,
    pipeline: Seq<char>,
    prev_stage: Option<Seq<char>>,
) -> Seq<(Seq<char>, Seq<char>)> {
    seq![
        ("stage"@, stage),
        ("stage_num"@, decimal(stage_index + 1)),
        ("forge_dir"@, forge_dir),
        ("run_id"@, run_id),
        ("pipeline"@, pipeline),
    ] + if stage_index > 0 && prev_stage is Some {
        seq![
            (
                "prev_output"@,
                path_join(forge_dir, output_file_name(stage_index, prev_stage->0)),
            ),
        ]
    } else {
        seq![]
    }
}

/// The template variables of stage `stage_index` (0-based) named `stage`;
/// `prev_stage` is the name of the stage before it, if any.
pub fn stage_template_vars(
    stage: &str,
    stage_index: usize,
    forge_dir: &str,
    run_id: &str,
    pipeline: &str,
    prev_stage: Option<&str>,
) -> (r: Vec<(String, String)>)
    requires
        stage_index < usize::MAX,
    ensures
        r.deep_view() == template_vars(
            stage@,
            stage_index as nat,
            forge_dir@,
            run_id@,
            pipeline@,
            opt_view(prev_stage),
        ),
{
    let mut vars: Vec<(String, String)> = Vec::new();
    vars.push((to_owned_string("stage"), to_owned_string(stage)));
    vars.push((to_owned_string("stage_num"), usize_to_string(stage_index + 1)));
    vars.push((to_owned_string("forge_dir"), to_owned_string(forge_dir)));
    vars.push((to_owned_string("run_id"), to_owned_string(run_id)));
    vars.push((to_owned_string("pipeline"), to_owned_string(pipeline)));
    if stage_index > 0 {
        match prev_stage {
            Some(prev) => {
                let file = stage_output_filename(stage_index, prev);
                vars.push((to_owned_string("prev_output"), join_path(forge_dir, file.as_str())));
            },
            None => {},
        }
    }
    proof {
        let pv = opt_view(prev_stage);
        assert(vars.deep_view() =~= template_vars(
            stage@,
            stage_index as nat,
            forge_dir@,
            run_id@,
            pipeline@,
            pv,
        ));
    }
    vars
}

/// The environment given to a stage's command: `FORGE_DIR`, `FORGE_STAGE`,
/// `FORGE_RUN_ID` and `FORGE_PIPELINE`.
pub fn stage_env_vars(forge_dir: &str, stage: &str, run_id: &str, pipeline: &str) -> (r: Vec<
    (String, String),
>)
    ensures
        r.deep_view() == seq![
            ("FORGE_DIR"@, forge_dir@),
            ("FORGE_STAGE"@, stage@),
            ("FORGE_RUN_ID"@, run_id@),
            ("FORGE_PIPELINE"@, pipeline@),
        ],
{
    let mut vars: Vec<(String, String)> = Vec::new();
    vars.push((to_owned_string("FORGE_DIR"), to_owned_string(forge_dir)));
    vars.push((to_owned_string("FORGE_STAGE"), to_owned_string(stage)));
    vars.push((to_owned_string("FORGE_RUN_ID"), to_owned_string(run_id)));
    vars.push((to_owned_string("FORGE_PIPELINE"), to_owned_string(pipeline)));
    assert(vars.deep_view() =~= seq![
        ("FORGE_DIR"@, forge_dir@),
        ("FORGE_STAGE"@, stage@),
        ("FORGE_RUN_ID"@, run_id@),
        ("FORGE_PIPELINE"@, pipeline@),
    ]);
    vars
}

// ---------------------------------------------------------------------------
// Context composition
// ---------------------------------------------------------------------------

/// The section carrying a stage's main input: for the first stage the initial
/// input (when non-empty), for later stages the previous stage's output
/// (when there is one, even empty).
pub open spec fn primary_section(stage_index: nat, primary: Option<Seq<char>>) -> Seq<Seq<char>> {
    if stage_index == 0 {
        match primary {
            Some(c) => if c.len() > 0 {
                seq!["--- INPUT ---\n"@ + c]
            } else {
                seq![]
            },
            None => seq![],
        }
    } else {
        match primary {
            Some(c) => seq!["--- PREVIOUS OUTPUT ---\n"@ + c],
            None => seq![],
        }
    }
}

/// The section of one reference: its file name and content.
pub open spec fn reference_section(file: Seq<char>, content: Seq<char>) -> Seq<char> {
    "--- REFERENCE: "@ + file + " ---\n"@ + content
}

/// The context a stage's command reads on stdin: the task, the main input,
/// then each reference, separated by blank lines.
pub open spec fn composed_context(
    description: Seq<char>,
    stage_index: nat,
    primary: Option<Seq<char>>,
    refs: Seq<(Seq<char>, Seq<char>)>,
) -> Seq<char> {
    join(
        seq!["--- TASK ---\n"@ + description] + primary_section(stage_index, primary) + Seq::new(
            refs.len(),
            |i: int| reference_section(refs[i].0, refs[i].1),
        ),
        "\n\n"@,
    )
}

/// Composes the stdin of stage `stage_index`: its description, its main
/// input (`primary`: the initial input for the first stage, the previous
/// output for later ones, `None` when there is none) and the references
/// found, as `(file name, content)` in order.
pub fn compose_stage_input(
    description: &str,
    stage_index: usize,
    primary: Option<&str>,
    references: &Vec<(String, String)>,
) -> (r: String)
    ensures
        r@ == composed_context(
            description@,
            stage_index as nat,
            opt_view(primary),
            references.deep_view(),
        ),
{
    let ghost refs = references.deep_view();
    let ghost pv = opt_view(primary);
    let mut parts: Vec<Vec<char>> = Vec::new();
    let mut task = chars_of("--- TASK ---\n");
    append_chars(&mut task, &chars_of(description));
    parts.push(task);
    match primary {
        Some(content) => {
            let c = chars_of(content);
            if stage_index == 0 {
                if c.len() > 0 {
                    let mut sec = chars_of("--- INPUT ---\n");
                    append_chars(&mut sec, &c);
                    parts.push(sec);
                }
            } else {
                let mut sec = chars_of("--- PREVIOUS OUTPUT ---\n");
                append_chars(&mut sec, &c);
                parts.push(sec);
            }
        },
        None => {},
    }
    let ghost head = seq!["--- TASK ---\n"@ + description@] + primary_section(stage_index as nat, pv);
    assert(parts@.map_values(|p: Vec<char>| p@) =~= head);
    let mut i: usize = 0;
    while i < references.len()
        invariant
            i <= references@.len(),
            refs == references.deep_view(),
            parts@.map_values(|p: Vec<char>| p@) == head + Seq::new(
                i as nat,
                |k: int| reference_section(refs[k].0, refs[k].1),
            ),
        decreases references@.len() - i,
    {
        let mut sec = chars_of("--- REFERENCE: ");
        append_chars(&mut sec, &chars_of(references[i].0.as_str()));
        append_chars(&mut sec, &chars_of(" ---\n"));
        append_chars(&mut sec, &chars_of(references[i].1.as_str()));
        assert(sec@ == reference_section(refs[i as int].0, refs[i as int].1));
        let ghost before = parts@.map_values(|p: Vec<char>| p@);
        parts.push(sec);
        assert(parts@.map_values(|p: Vec<char>| p@) =~= before.push(
            reference_section(refs[i as int].0, refs[i as int].1),
        ));
        i = i + 1;
        assert(parts@.map_values(|p: Vec<char>| p@) =~= head + Seq::new(
            i as nat,
            |k: int| reference_section(refs[k].0, refs[k].1),
        ));
    }
    let sep = chars_of("\n\n");
    let out = join_chars(&parts, &sep);
    assert(Seq::new(i as nat, |k: int| reference_section(refs[k].0, refs[k].1)) =~= Seq::new(
        refs.len(),
        |k: int| reference_section(refs[k].0, refs[k].1),
    ));
    string_from_chars(&out)
}

} // verus!
