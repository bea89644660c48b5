//! The decisions of the build executor, as a state machine. The environment
//! performs each action (create a directory, run a batch of tool invocations)
//! and reports back an event; the executor decides what comes next.
use vstd::prelude::*;

use crate::config::{Recipe, Tool};
use crate::dag::{get_recipe, Dag};
use crate::error::{BakeError, ErrorKind};
use crate::sort::{
    is_permutation_of_range, lemma_text_le_reflexive, names_ascend, order_by_name, text_le,
};
use crate::sources::{expand_sources, expansion, is_first_rejected};
use crate::template::{
    format_arguments, format_fails_with, formats_to, include_flags, include_flags_of, TemplateContext,
};
use crate::text::{join_path, joined_path, texts};

verus! {

/// How one tool invocation ended.
#[derive(Debug)]
pub enum RunOutcome {
    /// The tool exited with success.
    Succeeded,
    /// The tool exited with a failure status.
    Failed,
    /// The tool could not be started.
    NotStarted { message: String },
}

/// What the environment reports to the executor.
#[derive(Debug)]
pub enum Event {
    /// The build starts.
    Begin,
    /// The requested output directory exists.
    DirReady,
    /// The requested output directory could not be created.
    DirFailed { message: String },
    /// Every invocation of the requested batch has ended, in submission order.
    Ran { outcomes: Vec<RunOutcome> },
}

/// What the executor asks of the environment.
#[derive(Debug)]
pub enum Action {
    /// Create a directory and its parents; succeed if it exists.
    CreateDir { path: String },
    /// Run `cmd` once per argument list, all to completion, and report every outcome.
    Run { recipe: String, tool: String, cmd: String, invocations: Vec<Vec<String>> },
    /// The build is over: with the error that ended it, if any.
    Finished { error: Option<BakeError> },
    /// Nothing more: the build was over already.
    Halted,
}

/// Where the executor stands within the current recipe.
#[derive(Debug)]
pub enum Stage {
    /// About to start the current recipe, or to finish when none is left.
    Ready,
    /// Waiting for the current recipe's output directory.
    MakingDir { output_dir: String },
    /// Waiting for the invocations of tool `tools[tool]` of the current recipe.
    /// `planned` holds one entry per invocation in submission order: `None` for
    /// one that was handed out to run, the error for one whose arguments failed.
    Running {
        output_dir: String,
        sources: Vec<String>,
        flags: Vec<String>,
        tools: Vec<usize>,
        tool: usize,
        cmd: String,
        planned: Vec<Option<BakeError>>,
        handed: Vec<Vec<String>>,
    },
    /// The build is over.
    Done,
}

/// The build executor: the recipes in build order, the one being built, and
/// the stage within it.
pub struct Executor<'a> {
    pub root: String,
    pub recipes: Vec<&'a Recipe>,
    pub current: usize,
    pub stage: Stage,
}

/// The number of invocations among `planned[0..k]` that were handed out to run.
pub open spec fn handed_out(planned: Seq<Option<BakeError>>, k: int) -> int
    decreases k,
{
    if k <= 0 {
        0
    } else {
        handed_out(planned, k - 1) + if planned[k - 1] is None {
            1int
        } else {
            0
        }
    }
}

/// Invocation `k` of a batch failed: its arguments failed, or it did not succeed.
pub open spec fn failed_at(planned: Seq<Option<BakeError>>, outcomes: Seq<RunOutcome>, k: int) -> bool {
    planned[k] is Some || !(outcomes[handed_out(planned, k)] is Succeeded)
}

/// The event reports a complete batch of the running tool, and some
/// invocation of it failed.
pub open spec fn batch_failed(stage: Stage, event: Event) -> bool {
    match stage {
        Stage::Running { planned, .. } => match event {
            Event::Ran { outcomes } => outcomes@.len() == handed_out(planned@, planned@.len() as int)
                && exists|k: int| 0 <= k < planned@.len() && failed_at(planned@, outcomes@, k),
            _ => false,
        },
        _ => false,
    }
}

/// Every outcome of the running tool's batch is in, and all succeeded.
pub open spec fn batch_succeeded(stage: Stage, event: Event) -> bool {
    match stage {
        Stage::Running { planned, .. } => match event {
            Event::Ran { outcomes } => outcomes@.len() == handed_out(planned@, planned@.len() as int)
                && forall|k: int| 0 <= k < planned@.len() ==> !failed_at(planned@, outcomes@, k),
            _ => false,
        },
        _ => false,
    }
}

/// The action ends the build with the error of the first failed invocation of
/// the batch, in submission order: the error of its arguments, a failed exit
/// with its argument list, or the reason it could not start.
pub open spec fn reports_first_failure(recipe: Recipe, stage: Stage, event: Event, a: Action) -> bool {
    match stage {
        Stage::Running { tools, tool, cmd, planned, handed, .. } => match event {
            Event::Ran { outcomes } => match a {
                Action::Finished { error: Some(e) } => exists|k: int|
                    0 <= k < planned@.len() && failed_at(planned@, outcomes@, k) && (forall|q: int|
                        0 <= q < k ==> !failed_at(planned@, outcomes@, q)) && match planned@[k] {
                        Some(pe) => pe == e,
                        None => match outcomes@[handed_out(planned@, k)] {
                            RunOutcome::Failed => e.kind == ErrorKind::ToolExecutionFailed {
                                recipe: recipe.name,
                                tool: recipe.tools@[tools@[tool as int] as int].0,
                                cmd,
                                args: handed@[handed_out(planned@, k)],
                            },
                            RunOutcome::NotStarted { message } => e.kind == ErrorKind::Io { message },
                            RunOutcome::Succeeded => false,
                        },
                    },
                _ => false,
            },
            _ => false,
        },
        _ => false,
    }
}

/// The action ends the build with the error that the directory event reports.
pub open spec fn reports_dir_failure(event: Event, a: Action) -> bool {
    match event {
        Event::DirFailed { message } => match a {
            Action::Finished { error: Some(e) } => e.kind == ErrorKind::Io { message },
            _ => false,
        },
        _ => true,
    }
}

/// The action ends the build without an error.
pub open spec fn finishes_cleanly(a: Action) -> bool {
    match a {
        Action::Finished { error } => error is None,
        _ => false,
    }
}

/// `sources` is an expansion of the recipe's source patterns against `root`,
/// for some answers of the file system.
pub open spec fn sources_expanded(root: Seq<char>, recipe: Recipe, sources: Seq<String>) -> bool {
    exists|fs: Seq<Seq<Seq<char>>>|
        fs.len() == recipe.sources@.len() && texts(sources) == expansion(root, texts(recipe.sources@), fs)
}

/// The names of a recipe's tools, in declaration order.
pub open spec fn tool_names(r: Recipe) -> Seq<Seq<char>> {
    r.tools@.map_values(|e: (String, Tool)| e.0@)
}

/// The number of invocations of a tool over `n` sources.
pub open spec fn batch_size(t: Tool, n: nat) -> nat {
    if t.concurrent {
        n
    } else {
        1
    }
}

/// If the action runs a tool, it is tool `t` of `recipe`.
pub open spec fn runs_tool_of(a: Action, recipe: Recipe, t: int) -> bool {
    match a {
        Action::Run { recipe: name, tool, cmd, .. } => name@ == recipe.name@ && tool@
            == recipe.tools@[t].0@ && cmd@ == recipe.tools@[t].1.cmd@,
        _ => true,
    }
}

/// The name order of the running stage's recipe tools.
pub open spec fn stage_tools(s: Stage) -> Seq<usize> {
    match s {
        Stage::Running { tools, .. } => tools@,
        _ => Seq::empty(),
    }
}

/// The position, in name order, of the running tool.
pub open spec fn stage_tool(s: Stage) -> int {
    match s {
        Stage::Running { tool, .. } => tool as int,
        _ => -1,
    }
}

/// The invocations planned for the running tool.
pub open spec fn stage_planned(s: Stage) -> Seq<Option<BakeError>> {
    match s {
        Stage::Running { planned, .. } => planned@,
        _ => Seq::empty(),
    }
}

/// The argument lists handed out for the running tool.
pub open spec fn stage_handed(s: Stage) -> Seq<Vec<String>> {
    match s {
        Stage::Running { handed, .. } => handed@,
        _ => Seq::empty(),
    }
}

/// The sources of the running stage.
pub open spec fn stage_sources(s: Stage) -> Seq<String> {
    match s {
        Stage::Running { sources, .. } => sources@,
        _ => Seq::empty(),
    }
}

/// The command of the running tool.
pub open spec fn stage_cmd(s: Stage) -> String {
    match s {
        Stage::Running { cmd, .. } => cmd,
        _ => arbitrary(),
    }
}

/// The outcomes that an event reports.
pub open spec fn event_outcomes(e: Event) -> Seq<RunOutcome> {
    match e {
        Event::Ran { outcomes } => outcomes@,
        _ => Seq::empty(),
    }
}

/// Each invocation `k` of the running tool was templated over context `ctxs[k]`:
/// its error is the templating error there, or the argument list handed out
/// for it is one that the templates give there.
pub open spec fn planned_from(
    args: Seq<String>,
    ctxs: Seq<TemplateContext>,
    planned: Seq<Option<BakeError>>,
    invocations: Seq<Vec<String>>,
) -> bool {
    &&& planned.len() == ctxs.len()
    &&& invocations.len() == handed_out(planned, planned.len() as int)
    &&& plan_holds(args, ctxs, planned, invocations, planned.len() as int)
}

/// The first `n` planned invocations agree with their contexts, as
/// `planned_from` states.
pub open spec fn plan_holds(
    args: Seq<String>,
    ctxs: Seq<TemplateContext>,
    planned: Seq<Option<BakeError>>,
    invocations: Seq<Vec<String>>,
    n: int,
) -> bool {
    forall|k: int|
        0 <= k < n ==> match #[trigger] planned[k] {
            Some(e) => format_fails_with(args, ctxs[k], e),
            None => formats_to(args, ctxs[k], invocations[handed_out(planned, k)]@),
        }
}

/// A run of the running tool: the invocations were templated over the
/// contexts that the tool gets for the stage's sources.
pub open spec fn run_matches_plan(recipe: Recipe, stage: Stage, a: Action) -> bool {
    match stage {
        Stage::Running { output_dir, sources, flags, tools, tool, planned, .. } => match a {
            Action::Run { invocations, .. } => {
                let t = recipe.tools@[tools@[tool as int] as int].1;
                exists|ctxs: Seq<TemplateContext>|
                    #[trigger] contexts_fit(t, sources@, output_dir, flags@, ctxs) && planned_from(
                        t.args@,
                        ctxs,
                        planned@,
                        invocations@,
                    )
            },
            _ => true,
        },
        _ => true,
    }
}

/// The event reports a batch of the running tool with more or fewer outcomes
/// than invocations were handed out.
pub open spec fn batch_miscounted(stage: Stage, event: Event) -> bool {
    match stage {
        Stage::Running { planned, .. } => match event {
            Event::Ran { outcomes } => outcomes@.len() != handed_out(planned@, planned@.len() as int),
            _ => false,
        },
        _ => false,
    }
}

/// No recipe of `recipes` has two tools of one name.
pub open spec fn recipes_named_once(recipes: Seq<&Recipe>) -> bool {
    forall|k: int| 0 <= k < recipes.len() ==> (#[trigger] recipes[k]).tools_named_once()
}

/// The include flags of a recipe, its directories resolved against `root`.
pub open spec fn recipe_flags(root: Seq<char>, recipe: Recipe) -> Seq<Seq<char>> {
    include_flags_of(root, texts(recipe.include_dirs()))
}

/// The error that an action ends the build with.
pub open spec fn error_of(a: Action) -> BakeError {
    match a {
        Action::Finished { error: Some(e) } => e,
        _ => arbitrary(),
    }
}

/// `e` names the first source pattern of the recipe that `glob` refuses.
pub open spec fn source_error(root: Seq<char>, recipe: Recipe, e: BakeError) -> bool {
    match e.kind {
        ErrorKind::SourceExpansion { pattern } => exists|i: int|
            is_first_rejected(root, texts(recipe.sources@), i) && pattern@ == joined_path(
                root,
                recipe.sources@[i]@,
            ),
        _ => false,
    }
}

/// `e` is the templating error of tool `t` of the recipe, in the one
/// invocation that a batch tool gets over the recipe's expanded sources.
pub open spec fn template_error(root: Seq<char>, recipe: Recipe, t: int, e: BakeError) -> bool {
    exists|ctx: TemplateContext|
        #[trigger] format_fails_with(recipe.tools@[t].1.args@, ctx, e) && sources_expanded(root, recipe, ctx.sources@) && ctx.output_dir@ == output_dir_of(
            root,
            recipe.name@,
        ) && texts(ctx.include_flags@) == recipe_flags(root, recipe)
}

/// Tool `t` of the recipe comes first in the order of names.
pub open spec fn is_first_tool(recipe: Recipe, t: int) -> bool {
    0 <= t < recipe.tools@.len() && forall|j: int|
        0 <= j < recipe.tools@.len() ==> text_le(tool_names(recipe)[t], #[trigger] tool_names(recipe)[j])
}

/// `e` can end a recipe whose directory is ready: a refused source pattern, or
/// a templating error of its first tool, when that tool runs as one batch.
pub open spec fn dir_ready_error(root: Seq<char>, recipe: Recipe, e: BakeError) -> bool {
    source_error(root, recipe, e) || exists|t: int|
        is_first_tool(recipe, t) && !recipe.tools@[t].1.concurrent && #[trigger] template_error(
            root,
            recipe,
            t,
            e,
        )
}

/// The action ends the build with an error.
pub open spec fn ends_with_error(a: Action) -> bool {
    match a {
        Action::Finished { error } => error is Some,
        _ => false,
    }
}

/// If the action creates a directory, it is `dir`.
pub open spec fn creates_dir_of(a: Action, dir: Seq<char>) -> bool {
    match a {
        Action::CreateDir { path } => path@ == dir,
        _ => true,
    }
}

/// Recipe `i` is the first that `rs` declares under `name`.
pub open spec fn is_first_named(rs: Seq<Recipe>, name: Seq<char>, i: int) -> bool {
    0 <= i < rs.len() && rs[i].name@ == name && forall|j: int| 0 <= j < i ==> rs[j].name@ != name
}

/// `out` holds, for each name of `names` in turn, the first recipe of `rs`
/// declared under it, skipping names that no recipe has.
pub open spec fn picks(rs: Seq<Recipe>, names: Seq<Seq<char>>, out: Seq<&Recipe>) -> bool
    decreases names.len(),
{
    if names.len() == 0 {
        out.len() == 0
    } else if exists|i: int| is_first_named(rs, names.last(), i) {
        &&& out.len() > 0
        &&& exists|i: int| is_first_named(rs, names.last(), i) && *out.last() == rs[i]
        &&& picks(rs, names.drop_last(), out.drop_last())
    } else {
        picks(rs, names.drop_last(), out)
    }
}

/// The output directory of a recipe: `<root>/build/<name>`.
pub open spec fn output_dir_of(root: Seq<char>, name: Seq<char>) -> Seq<char> {
    joined_path(joined_path(root, "build"@), name)
}

/// The contexts of a tool's invocations: one per source, each with that source
/// alone, for a concurrent tool; else one with all the sources.
pub open spec fn contexts_fit(
    tool: Tool,
    sources: Seq<String>,
    output_dir: String,
    flags: Seq<String>,
    r: Seq<TemplateContext>,
) -> bool {
    &&& r.len() == if tool.concurrent {
        sources.len()
    } else {
        1
    }
    &&& forall|k: int|
        0 <= k < r.len() ==> {
            &&& (#[trigger] r[k]).sources@ == if tool.concurrent {
                seq![sources[k]]
            } else {
                sources
            }
            &&& r[k].output_dir == output_dir
            &&& r[k].include_flags@ == flags
        }
}

/// A copy of a list of strings.
fn copy_strings(v: &Vec<String>) -> (r: Vec<String>)
    ensures
        r@ == v@,
{
    let mut r: Vec<String> = Vec::new();
    let mut i: usize = 0;
    while i < v.len()
        invariant
            i <= v@.len(),
            r@ == v@.subrange(0, i as int),
        decreases v@.len() - i,
    {
        r.push(v[i].clone());
        proof {
            assert(r@ =~= v@.subrange(0, i as int + 1));
        }
        i += 1;
    }
    proof {
        assert(v@.subrange(0, v@.len() as int) =~= v@);
    }
    r
}

/// The template contexts of a tool's invocations over `sources`.
pub fn invocation_contexts(tool: &Tool, sources: &Vec<String>, output_dir: &String, flags: &Vec<String>) -> (r:
    Vec<TemplateContext>)
    ensures
        contexts_fit(*tool, sources@, *output_dir, flags@, r@),
{
    let mut r: Vec<TemplateContext> = Vec::new();
    if tool.concurrent {
        let mut k: usize = 0;
        while k < sources.len()
            invariant
                tool.concurrent,
                k <= sources@.len(),
                r@.len() == k,
                forall|q: int|
                    0 <= q < k ==> {
                        &&& (#[trigger] r@[q]).sources@ == seq![sources@[q]]
                        &&& r@[q].output_dir == *output_dir
                        &&& r@[q].include_flags@ == flags@
                    },
            decreases sources@.len() - k,
        {
            let mut one: Vec<String> = Vec::new();
            one.push(sources[k].clone());
            let ctx = TemplateContext {
                sources: one,
                output_dir: output_dir.clone(),
                include_flags: copy_strings(flags),
            };
            r.push(ctx);
            proof {
                assert(r@[k as int].sources@ =~= seq![sources@[k as int]]);
            }
            k += 1;
        }
    } else {
        let ctx = TemplateContext {
            sources: copy_strings(sources),
            output_dir: output_dir.clone(),
            include_flags: copy_strings(flags),
        };
        r.push(ctx);
    }
    r
}

impl<'a> Executor<'a> {
    /// An executor over the recipes of `order` that `dag` declares, in that
    /// order: for each name, the first recipe declared under it; names that no
    /// recipe has are passed over.
    pub fn new(root: &str, order: &Vec<String>, dag: &Dag<'a>) -> (r: Executor<'a>)
        requires
            forall|i: int| 0 <= i < dag.recipes@.len() ==> (#[trigger] dag.recipes@[i]).tools_named_once(),
        ensures
            r.wf(),
            r.root@ == root@,
            picks(dag.recipes@, texts(order@), r.recipes@),
            r.current == 0,
            r.stage is Ready,
    {
        let mut recipes: Vec<&'a Recipe> = Vec::new();
        let mut i: usize = 0;
        while i < order.len()
            invariant
                i <= order@.len(),
                forall|i: int| 0 <= i < dag.recipes@.len() ==> (#[trigger] dag.recipes@[i]).tools_named_once(),
                recipes_named_once(recipes@),
                picks(dag.recipes@, texts(order@.subrange(0, i as int)), recipes@),
            decreases order@.len() - i,
        {
            let ghost names = texts(order@.subrange(0, i as int + 1));
            proof {
                assert(names.drop_last() =~= texts(order@.subrange(0, i as int)));
                assert(names.last() == order@[i as int]@);
            }
            match get_recipe(dag, order[i].as_str()) {
                Some(recipe) => {
                    let ghost before = recipes@;
                    recipes.push(recipe);
                    proof {
                        assert(recipes@.drop_last() =~= before);
                        let k = choose|k: int|
                            0 <= k < dag.recipes@.len() && *recipe == dag.recipes@[k] && recipe.name@
                                == order@[i as int]@ && forall|j: int|
                                0 <= j < k ==> (#[trigger] dag.recipes@[j]).name@ != order@[i as int]@;
                        assert(is_first_named(dag.recipes@, names.last(), k));
                        assert(picks(dag.recipes@, names, recipes@));
                    }
                },
                None => {
                    proof {
                        assert(!exists|k: int| is_first_named(dag.recipes@, names.last(), k));
                        assert(picks(dag.recipes@, names, recipes@));
                    }
                },
            }
            i += 1;
        }
        proof {
            assert(order@.subrange(0, order@.len() as int) =~= order@);
        }
        Executor { root: String::from_str(root), recipes, current: 0, stage: Stage::Ready }
    }

    /// The position and the stage agree with the recipes.
    pub open spec fn wf(&self) -> bool {
        &&& self.current <= self.recipes@.len()
        &&& recipes_named_once(self.recipes@)
        &&& match self.stage {
            Stage::Ready => true,
            Stage::Done => true,
            Stage::MakingDir { output_dir } => self.current < self.recipes@.len() && output_dir@
                == output_dir_of(self.root@, self.recipes@[self.current as int].name@),
            Stage::Running { output_dir, sources, flags, tools, tool, cmd, planned, handed } => {
                let recipe = *self.recipes@[self.current as int];
                &&& self.current < self.recipes@.len()
                &&& output_dir@ == output_dir_of(self.root@, recipe.name@)
                &&& texts(flags@) == recipe_flags(self.root@, recipe)
                &&& tool < tools@.len()
                &&& is_permutation_of_range(tools@, recipe.tools@.len())
                &&& names_ascend(tool_names(recipe), tools@)
                &&& cmd == recipe.tools@[tools@[tool as int] as int].1.cmd
                &&& sources_expanded(self.root@, recipe, sources@)
                &&& planned@.len() == batch_size(recipe.tools@[tools@[tool as int] as int].1, sources@.len())
                &&& handed@.len() == handed_out(planned@, planned@.len() as int)
            },
        }
    }

    /// Starts the current recipe, or finishes when none is left.
    fn start_recipe(self) -> (r: (Executor<'a>, Action))
        requires
            recipes_named_once(self.recipes@),
        ensures
            r.0.root == self.root,
            r.0.recipes == self.recipes,
            r.0.current == self.current,
            self.current <= self.recipes@.len() ==> r.0.wf(),
            self.current >= self.recipes@.len() ==> r.0.stage is Done && finishes_cleanly(r.1),
            r.1 is Finished ==> r.0.stage is Done,
            r.1 is CreateDir ==> self.current < self.recipes@.len(),
            self.current < self.recipes@.len() ==> r.0.stage is MakingDir && (r.1 matches Action::CreateDir { path }
                && path@ == output_dir_of(self.root@, self.recipes@[self.current as int].name@)),
    {
        if self.current >= self.recipes.len() {
            let next = Executor { root: self.root, recipes: self.recipes, current: self.current, stage: Stage::Done };
            return (next, Action::Finished { error: None });
        }
        let build = join_path(self.root.as_str(), "build");
        let path = join_path(build.as_str(), self.recipes[self.current].name.as_str());
        let output_dir = path.clone();
        let next = Executor {
            root: self.root,
            recipes: self.recipes,
            current: self.current,
            stage: Stage::MakingDir { output_dir },
        };
        (next, Action::CreateDir { path })
    }

    /// Plans and hands out tool `tools[tool]` of the current recipe; past the
    /// last tool, moves on to the next recipe.
    fn run_tool(
        self,
        output_dir: String,
        sources: Vec<String>,
        flags: Vec<String>,
        tools: Vec<usize>,
        tool: usize,
    ) -> (r: (Executor<'a>, Action))
        requires
            self.current < self.recipes@.len(),
            tool <= tools@.len(),
            is_permutation_of_range(tools@, self.recipes@[self.current as int].tools@.len()),
            names_ascend(tool_names(*self.recipes@[self.current as int]), tools@),
            sources_expanded(self.root@, *self.recipes@[self.current as int], sources@),
            output_dir@ == output_dir_of(self.root@, self.recipes@[self.current as int].name@),
            texts(flags@) == recipe_flags(self.root@, *self.recipes@[self.current as int]),
            recipes_named_once(self.recipes@),
        ensures
            r.0.root == self.root,
            r.0.recipes == self.recipes,
            r.0.wf(),
            r.1 is Run ==> (r.0.stage matches Stage::Running { planned, .. }
                && r.1->invocations@.len() == handed_out(planned@, planned@.len() as int)),
            r.1 is Finished ==> r.0.stage is Done,
            r.0.current < self.recipes@.len() ==> creates_dir_of(
                r.1,
                output_dir_of(self.root@, self.recipes@[r.0.current as int].name@),
            ),
            r.1 is Halted ==> false,
            tool < tools@.len() ==> {
                &&& r.0.current == self.current
                &&& r.1 is Run || ends_with_error(r.1)
                &&& r.1 is Run ==> stage_tool(r.0.stage) == tool && stage_tools(r.0.stage) == tools@
                    && runs_tool_of(r.1, *self.recipes@[self.current as int], tools@[tool as int] as int)
                    && stage_sources(r.0.stage) == sources@
                    && run_matches_plan(*self.recipes@[self.current as int], r.0.stage, r.1)
                &&& ends_with_error(r.1) ==> !self.recipes@[self.current as int].tools@[tools@[tool as int] as int].1.concurrent
                    && template_error(self.root@, *self.recipes@[self.current as int], tools@[tool as int] as int, error_of(r.1))
            },
            tool >= tools@.len() ==> {
                &&& r.0.current == self.current + 1
                &&& r.1 is CreateDir || finishes_cleanly(r.1)
                &&& r.1 is CreateDir <==> r.0.current < self.recipes@.len()
            },
    {
        let count = self.recipes.len();
        if tool >= tools.len() {
            let next = Executor { root: self.root, recipes: self.recipes, current: self.current + 1, stage: Stage::Ready };
            return next.start_recipe();
        }
        let recipe: &Recipe = self.recipes[self.current];
        let entry = &recipe.tools[tools[tool]];
        let t: &Tool = &entry.1;
        let contexts = invocation_contexts(t, &sources, &output_dir, &flags);
        let mut planned: Vec<Option<BakeError>> = Vec::new();
        let mut invocations: Vec<Vec<String>> = Vec::new();
        let mut handed: Vec<Vec<String>> = Vec::new();
        let mut k: usize = 0;
        while k < contexts.len()
            invariant
                self.current < self.recipes@.len(),
                tool < tools@.len(),
                *t == self.recipes@[self.current as int].tools@[tools@[tool as int] as int].1,
                !t.concurrent ==> forall|q: int| 0 <= q < k ==> planned@[q] is None,
                k <= contexts@.len(),
                planned@.len() == k,
                invocations@.len() == handed_out(planned@, k as int),
                plan_holds(t.args@, contexts@, planned@, invocations@, k as int),
                contexts_fit(*t, sources@, output_dir, flags@, contexts@),
                recipes_named_once(self.recipes@),
                sources_expanded(self.root@, *self.recipes@[self.current as int], sources@),
                output_dir@ == output_dir_of(self.root@, self.recipes@[self.current as int].name@),
                texts(flags@) == recipe_flags(self.root@, *self.recipes@[self.current as int]),
                handed@.len() == invocations@.len(),
            decreases contexts@.len() - k,
        {
            let ghost before = planned@;
            let ghost inv_before = invocations@;
            match format_arguments(&t.args, &contexts[k]) {
                Ok(args) => {
                    handed.push(copy_strings(&args));
                    invocations.push(args);
                    planned.push(None);
                },
                Err(e) => {
                    if !t.concurrent {
                        proof {
                            let ctx = contexts@[k as int];
                            assert(ctx.sources@ == sources@);
                            assert(ctx.include_flags@ == flags@);
                            assert(format_fails_with(t.args@, ctx, e));
                            assert(template_error(
                                self.root@,
                                *self.recipes@[self.current as int],
                                tools@[tool as int] as int,
                                e,
                            ));
                        }
                        let next = Executor { root: self.root, recipes: self.recipes, current: self.current, stage: Stage::Done };
                        return (next, Action::Finished { error: Some(e) });
                    }
                    planned.push(Some(e));
                },
            }
            proof {
                assert(planned@.subrange(0, k as int) =~= before);
                if planned@[k as int] is None {
                    assert(invocations@.subrange(0, inv_before.len() as int) =~= inv_before);
                }
                lemma_plan_extends(t.args@, contexts@, before, inv_before, k as int, planned@, invocations@);
            }
            k += 1;
        }
        let cmd = t.cmd.clone();
        let ghost inv = invocations@;
        let ghost sources_view = sources@;
        let ghost out_view = output_dir;
        let ghost flags_view = flags@;
        let ghost plan_view = planned@;
        let ghost tl = *self.recipes@[self.current as int];
        let ghost tt = tl.tools@[tools@[tool as int] as int].1;
        proof {
            assert(tt == *t);
            assert(planned_from(tt.args@, contexts@, planned@, invocations@));
            assert(contexts_fit(tt, sources@, output_dir, flags@, contexts@));
        }
        let action = Action::Run {
            recipe: recipe.name.clone(),
            tool: entry.0.clone(),
            cmd: t.cmd.clone(),
            invocations,
        };
        let next = Executor {
            root: self.root,
            recipes: self.recipes,
            current: self.current,
            stage: Stage::Running { output_dir, sources, flags, tools, tool, cmd, planned, handed },
        };
        proof {
            assert(action->invocations@ == inv);
            assert(stage_sources(next.stage) == sources_view);
            assert(contexts_fit(tt, sources_view, out_view, flags_view, contexts@));
            assert(planned_from(tt.args@, contexts@, plan_view, inv));
            lemma_run_matches_plan(tl, next.stage, action, contexts@);
        }
        (next, action)
    }

    /// The current recipe's directory exists: expands its sources and hands out
    /// its first tool, in the order of tool names.
    fn dir_ready(self, output_dir: String) -> (r: (Executor<'a>, Action))
        requires
            self.current < self.recipes@.len(),
            recipes_named_once(self.recipes@),
            output_dir@ == output_dir_of(self.root@, self.recipes@[self.current as int].name@),
        ensures
            r.0.root == self.root,
            r.0.recipes == self.recipes,
            r.0.current == self.current || r.0.current == self.current + 1,
            r.0.wf(),
            r.1 is Run ==> (r.0.stage matches Stage::Running { planned, .. }
                && r.1->invocations@.len() == handed_out(planned@, planned@.len() as int)),
            r.1 is Finished ==> r.0.stage is Done,
            r.0.current < self.recipes@.len() ==> creates_dir_of(
                r.1,
                output_dir_of(self.root@, self.recipes@[r.0.current as int].name@),
            ),
            r.1 is Halted ==> false,
            r.1 is Run ==> r.0.current == self.current && stage_tool(r.0.stage) == 0 && runs_tool_of(
                r.1,
                *self.recipes@[self.current as int],
                stage_tools(r.0.stage)[0] as int,
            ) && run_matches_plan(*self.recipes@[self.current as int], r.0.stage, r.1),
            ends_with_error(r.1) ==> r.0.current == self.current && dir_ready_error(
                self.root@,
                *self.recipes@[self.current as int],
                error_of(r.1),
            ),
            r.1 is CreateDir || finishes_cleanly(r.1) ==> r.0.current == self.current + 1
                && self.recipes@[self.current as int].tools@.len() == 0,
    {
        let recipe: &Recipe = self.recipes[self.current];
        let sources = match expand_sources(&recipe.sources, self.root.as_str()) {
            Ok(v) => v,
            Err(e) => {
                let next = Executor { root: self.root, recipes: self.recipes, current: self.current, stage: Stage::Done };
                return (next, Action::Finished { error: Some(e) });
            },
        };
        let flags = match &recipe.includes {
            Some(dirs) => include_flags(self.root.as_str(), dirs),
            None => Vec::new(),
        };
        proof {
            if recipe.includes is None {
                assert(texts(flags@) =~= recipe_flags(self.root@, *recipe));
            }
        }
        let mut names: Vec<String> = Vec::new();
        let mut i: usize = 0;
        while i < recipe.tools.len()
            invariant
                i <= recipe.tools@.len(),
                names@.len() == i,
                forall|q: int| 0 <= q < i ==> #[trigger] names@[q]@ == recipe.tools@[q].0@,
            decreases recipe.tools@.len() - i,
        {
            names.push(recipe.tools[i].0.clone());
            i += 1;
        }
        proof {
            assert(names@.map_values(|s: String| s@) =~= tool_names(*recipe));
        }
        let tools = order_by_name(&names);
        proof {
            if tools@.len() > 0 {
                let first = tools@[0] as int;
                assert forall|j: int| 0 <= j < recipe.tools@.len() implies text_le(
                    tool_names(*recipe)[first],
                    #[trigger] tool_names(*recipe)[j],
                ) by {
                    assert(tools@.contains(j as usize));
                    let q = choose|q: int| 0 <= q < tools@.len() && tools@[q] == j as usize;
                    if q == 0 {
                        lemma_text_le_reflexive(tool_names(*recipe)[first]);
                    }
                }
                assert(is_first_tool(*recipe, first));
            }
        }
        self.run_tool(output_dir, sources, flags, tools, 0)
    }

    /// Decides what comes next from what the environment reports. A build that
    /// is over stays over; the first failed invocation of a batch, in submission
    /// order, ends the build with its error once every outcome of the batch is
    /// in; a batch that fully succeeded moves on to the next tool, and past the
    /// last tool to the next recipe. An event that does not answer the last
    /// action ends the build.
    pub fn step(self, event: Event) -> (r: (Executor<'a>, Action))
        requires
            self.wf(),
        ensures
            r.0.wf(),
            r.0.root == self.root,
            r.0.recipes == self.recipes,
            self.current <= r.0.current,
            self.stage is Done ==> r.1 is Halted && r.0 == self,
            !(self.stage is Done) ==> !(r.1 is Halted),
            r.1 is Finished ==> r.0.stage is Done,
            r.1 is Run ==> (r.0.stage matches Stage::Running { planned, .. }
                && r.1->invocations@.len() == handed_out(planned@, planned@.len() as int)),
            r.1 is Run ==> run_matches_plan(*self.recipes@[r.0.current as int], r.0.stage, r.1),
            r.0.current < self.recipes@.len() ==> creates_dir_of(
                r.1,
                output_dir_of(self.root@, self.recipes@[r.0.current as int].name@),
            ),
            self.stage is Ready && event is Begin ==> {
                &&& r.0.current == self.current
                &&& self.current < self.recipes@.len() ==> r.1 is CreateDir && r.0.stage is MakingDir
                &&& self.current >= self.recipes@.len() ==> finishes_cleanly(r.1)
            },
            self.stage is MakingDir && event is DirFailed ==> reports_dir_failure(event, r.1),
            self.stage is MakingDir && event is DirReady ==> {
                &&& r.1 is Run ==> r.0.current == self.current && stage_tool(r.0.stage) == 0
                    && runs_tool_of(r.1, *self.recipes@[self.current as int], stage_tools(r.0.stage)[0] as int)
                &&& r.1 is CreateDir || finishes_cleanly(r.1) ==> r.0.current == self.current + 1
                    && self.recipes@[self.current as int].tools@.len() == 0
                &&& ends_with_error(r.1) ==> r.0.current == self.current && dir_ready_error(
                    self.root@,
                    *self.recipes@[self.current as int],
                    error_of(r.1),
                )
            },
            batch_failed(self.stage, event) ==> r.0.stage is Done && reports_first_failure(
                *self.recipes@[self.current as int],
                self.stage,
                event,
                r.1,
            ),
            batch_miscounted(self.stage, event) ==> r.0.stage is Done && ends_with_error(r.1),
            batch_succeeded(self.stage, event) ==> {
                let next = stage_tool(self.stage) + 1;
                let tools = stage_tools(self.stage);
                let recipe = *self.recipes@[self.current as int];
                &&& next < tools.len() ==> r.0.current == self.current && (r.1 is Run || ends_with_error(r.1))
                &&& r.1 is Run ==> stage_tool(r.0.stage) == next && stage_tools(r.0.stage) == tools
                    && runs_tool_of(r.1, recipe, tools[next] as int)
                &&& ends_with_error(r.1) ==> next < tools.len() && !recipe.tools@[tools[next] as int].1.concurrent
                    && template_error(self.root@, recipe, tools[next] as int, error_of(r.1))
                &&& next >= tools.len() ==> r.0.current == self.current + 1 && (r.1 is CreateDir
                    || finishes_cleanly(r.1))
            },
            (self.stage is Ready && !(event is Begin)) || (self.stage is MakingDir && event is Ran)
                || (self.stage is MakingDir && event is Begin) || (self.stage is Running && !(event is Ran))
                ==> r.0.stage is Done && ends_with_error(r.1),
    {
        match self.stage {
            Stage::Done => {
                let next = Executor { root: self.root, recipes: self.recipes, current: self.current, stage: Stage::Done };
                (next, Action::Halted)
            },
            Stage::Ready => {
                match event {
                    Event::Begin => {
                        let next = Executor { root: self.root, recipes: self.recipes, current: self.current, stage: Stage::Ready };
                        next.start_recipe()
                    },
                    _ => Self::unexpected(self.root, self.recipes, self.current),
                }
            },
            Stage::MakingDir { output_dir } => {
                match event {
                    Event::DirReady => {
                        let next = Executor { root: self.root, recipes: self.recipes, current: self.current, stage: Stage::Ready };
                        next.dir_ready(output_dir)
                    },
                    Event::DirFailed { message } => {
                        let next = Executor { root: self.root, recipes: self.recipes, current: self.current, stage: Stage::Done };
                        (next, Action::Finished { error: Some(BakeError::new(ErrorKind::Io { message })) })
                    },
                    _ => Self::unexpected(self.root, self.recipes, self.current),
                }
            },
            Stage::Running { output_dir, sources, flags, tools, tool, cmd, planned, handed } => {
                match event {
                    Event::Ran { outcomes } => {
                        if outcomes.len() != handed.len() {
                            return Self::unexpected(self.root, self.recipes, self.current);
                        }
                        let total = outcomes.len();
                        let ntools = tools.len();
                        let mut planned = planned;
                        let mut handed = handed;
                        let ghost plan = planned@;
                        let mut k: usize = 0;
                        let mut j: usize = 0;
                        while k < planned.len()
                            invariant
                                self.current < self.recipes@.len(),
                                self.stage is Running,
                                tool < tools@.len(),
                                ntools == tools@.len(),
                                self.wf(),
                                stage_tools(self.stage) == tools@,
                                stage_tool(self.stage) == tool,
                                total == outcomes@.len(),
                                planned@ == plan,
                                stage_planned(self.stage) == plan,
                                stage_handed(self.stage) == handed@,
                                stage_cmd(self.stage) == cmd,
                                event_outcomes(event) == outcomes@,
                                event is Ran,
                                outcomes@.len() == handed_out(plan, plan.len() as int),
                                handed@.len() == outcomes@.len(),
                                k <= plan.len(),
                                j == handed_out(plan, k as int),
                                forall|q: int| 0 <= q < k ==> !failed_at(plan, outcomes@, q),
                            decreases plan.len() - k,
                        {
                            proof {
                                lemma_handed_out_grows(plan, k as int + 1, plan.len() as int);
                                assert(handed_out(plan, k as int + 1) == j + if plan[k as int] is None {
                                    1int
                                } else {
                                    0
                                });
                            }
                            if planned[k].is_some() {
                                let e = planned.remove(k);
                                proof {
                                    assert(failed_at(plan, outcomes@, k as int));
                                    assert(reports_first_failure(*self.recipes@[self.current as int], self.stage, event, Action::Finished { error: e }));
                                }
                                let next = Executor { root: self.root, recipes: self.recipes, current: self.current, stage: Stage::Done };
                                return (next, Action::Finished { error: e });
                            }
                            match &outcomes[j] {
                                RunOutcome::Succeeded => {},
                                RunOutcome::Failed => {
                                    let ghost h = handed@;
                                    let args = handed.remove(j);
                                    let recipe: &Recipe = self.recipes[self.current];
                                    let error = BakeError::new(
                                        ErrorKind::ToolExecutionFailed {
                                            recipe: recipe.name.clone(),
                                            tool: recipe.tools[tools[tool]].0.clone(),
                                            cmd,
                                            args,
                                        },
                                    );
                                    proof {
                                        assert(args == h[j as int]);
                                        assert(failed_at(plan, outcomes@, k as int));
                                        assert(reports_first_failure(*recipe, self.stage, event, Action::Finished { error: Some(error) }));
                                    }
                                    let next = Executor { root: self.root, recipes: self.recipes, current: self.current, stage: Stage::Done };
                                    return (next, Action::Finished { error: Some(error) });
                                },
                                RunOutcome::NotStarted { message } => {
                                    let error = BakeError::new(ErrorKind::Io { message: message.clone() });
                                    proof {
                                        assert(failed_at(plan, outcomes@, k as int));
                                        assert(reports_first_failure(*self.recipes@[self.current as int], self.stage, event, Action::Finished { error: Some(error) }));
                                    }
                                    let next = Executor { root: self.root, recipes: self.recipes, current: self.current, stage: Stage::Done };
                                    return (next, Action::Finished { error: Some(error) });
                                },
                            }
                            k += 1;
                            j += 1;
                        }
                        let next = Executor { root: self.root, recipes: self.recipes, current: self.current, stage: Stage::Ready };
                        next.run_tool(output_dir, sources, flags, tools, tool + 1)
                    },
                    _ => Self::unexpected(self.root, self.recipes, self.current),
                }
            },
        }
    }

    /// Ends the build on an event that does not answer the last action.
    fn unexpected(root: String, recipes: Vec<&'a Recipe>, current: usize) -> (r: (Executor<'a>, Action))
        requires
            current <= recipes@.len(),
            recipes_named_once(recipes@),
        ensures
            r.0.root == root,
            r.0.recipes == recipes,
            r.0.current == current,
            r.0.stage is Done,
            r.0.wf(),
            ends_with_error(r.1),
    {
        let message = String::from_str("an event that does not answer the last action");
        let next = Executor { root, recipes, current, stage: Stage::Done };
        (next, Action::Finished { error: Some(BakeError::new(ErrorKind::Io { message })) })
    }
}

/// `handed_out` never decreases.
proof fn lemma_handed_out_grows(planned: Seq<Option<BakeError>>, a: int, b: int)
    requires
        0 <= a <= b,
    ensures
        handed_out(planned, a) <= handed_out(planned, b),
    decreases b - a,
{
    if a < b {
        lemma_handed_out_grows(planned, a, b - 1);
    }
}

proof fn lemma_run_matches_plan(recipe: Recipe, stage: Stage, a: Action, ctxs: Seq<TemplateContext>)
    requires
        stage matches Stage::Running { output_dir, sources, flags, tools, tool, planned, .. } && a matches Action::Run {
            invocations,
            ..
        } && contexts_fit(
            recipe.tools@[tools@[tool as int] as int].1,
            sources@,
            output_dir,
            flags@,
            ctxs,
        ) && planned_from(recipe.tools@[tools@[tool as int] as int].1.args@, ctxs, planned@, invocations@),
    ensures
        run_matches_plan(recipe, stage, a),
{
}

/// One more planned invocation keeps the plan in agreement with its contexts.
proof fn lemma_plan_extends(
    args: Seq<String>,
    ctxs: Seq<TemplateContext>,
    before: Seq<Option<BakeError>>,
    inv_before: Seq<Vec<String>>,
    k: int,
    planned: Seq<Option<BakeError>>,
    invocations: Seq<Vec<String>>,
)
    requires
        before.len() == k,
        0 <= k < ctxs.len(),
        inv_before.len() == handed_out(before, k),
        plan_holds(args, ctxs, before, inv_before, k),
        planned.len() == k + 1,
        planned.subrange(0, k) == before,
        match planned[k] {
            Some(e) => format_fails_with(args, ctxs[k], e) && invocations == inv_before,
            None => invocations.len() == inv_before.len() + 1 && invocations.subrange(0, inv_before.len() as int)
                == inv_before && formats_to(args, ctxs[k], invocations.last()@),
        },
    ensures
        invocations.len() == handed_out(planned, k + 1),
        plan_holds(args, ctxs, planned, invocations, k + 1),
{
    lemma_handed_out_prefix(planned, k);
    assert forall|q: int| 0 <= q < k + 1 implies match #[trigger] planned[q] {
        Some(e) => format_fails_with(args, ctxs[q], e),
        None => formats_to(args, ctxs[q], invocations[handed_out(planned, q)]@),
    } by {
        lemma_handed_out_agree(planned, before, q);
        if q < k {
            assert(planned[q] == before[q]);
            lemma_handed_out_grows(before, q + 1, k);
            if planned[q] is None {
                lemma_handed_out_grows(before, 0, q);
                let h = handed_out(before, q);
                assert(handed_out(before, q + 1) == h + 1);
                if planned[k] is None {
                    assert(invocations.subrange(0, inv_before.len() as int)[h] == invocations[h]);
                }
            }
        }
    }
}

/// `handed_out` looks only at the entries before `k`.
proof fn lemma_handed_out_prefix(planned: Seq<Option<BakeError>>, k: int)
    requires
        0 <= k < planned.len(),
    ensures
        handed_out(planned, k + 1) == handed_out(planned.subrange(0, k), k) + if planned[k] is None {
            1int
        } else {
            0
        },
{
    lemma_handed_out_agree(planned, planned.subrange(0, k), k);
}

proof fn lemma_handed_out_agree(a: Seq<Option<BakeError>>, b: Seq<Option<BakeError>>, k: int)
    requires
        0 <= k <= a.len(),
        k <= b.len(),
        forall|i: int| 0 <= i < k ==> a[i] == b[i],
    ensures
        handed_out(a, k) == handed_out(b, k),
    decreases k,
{
    if k > 0 {
        lemma_handed_out_agree(a, b, k - 1);
    }
}

} // verus!
