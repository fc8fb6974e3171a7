//! The steps by which the desired state of the limiter is brought onto the
//! kernel, in the order in which they are to be taken.

use vstd::prelude::*;

use crate::text::{strings, trim, trim_end, trim_start};

verus! {

/// A command-line tool.
#[derive(Debug, Clone, Copy, PartialEq, Eq, Structural)]
pub enum Tool {
    Tc,
    Ip,
}

/// One step. Where a step that must succeed fails, the steps after it are not
/// taken and the operation fails.
#[derive(Debug)]
pub enum Step {
    /// Run a tool, which must succeed. The context says what it is done for.
    Run { tool: Tool, args: Vec<String>, context: String },
    /// Run a tool, whose failure is ignored: what it removes may not be there.
    Try { tool: Tool, args: Vec<String> },
    /// Forget all classes of the packet classifier, as far as that succeeds.
    ClearClasses,
    /// Steer the traffic of an application to a class, as far as that succeeds.
    MapClass { dir: String, classid: u32 },
    /// Replace the rule set of the packet filter, which must succeed.
    LoadRules { script: String, context: String },
    /// Remove the rule set of the packet filter, as far as that succeeds.
    DropRules,
    /// Remove the group of an application.
    RemoveGroup { dir: String },
    /// Remove the group that holds the groups of all applications.
    RemoveBase,
    /// Move the running processes of the tracked applications to their groups.
    PlaceProcesses,
}

/// A step as a value.
pub enum StepModel {
    Run { tool: Tool, args: Seq<Seq<char>>, context: Seq<char> },
    Try { tool: Tool, args: Seq<Seq<char>> },
    ClearClasses,
    MapClass { dir: Seq<char>, classid: u32 },
    LoadRules { script: Seq<char>, context: Seq<char> },
    DropRules,
    RemoveGroup { dir: Seq<char> },
    RemoveBase,
    PlaceProcesses,
}

/// A context inside another.
pub open spec fn nested(outer: Seq<char>, inner: Seq<char>) -> Seq<char> {
    if inner.len() == 0 {
        outer
    } else {
        outer + ": "@ + inner
    }
}

impl View for Step {
    type V = StepModel;

    open spec fn view(&self) -> StepModel {
        match self {
            Step::Run { tool, args, context } => StepModel::Run {
                tool: *tool,
                args: args.deep_view(),
                context: context@,
            },
            Step::Try { tool, args } => StepModel::Try { tool: *tool, args: args.deep_view() },
            Step::ClearClasses => StepModel::ClearClasses,
            Step::MapClass { dir, classid } => StepModel::MapClass {
                dir: dir@,
                classid: *classid,
            },
            Step::LoadRules { script, context } => StepModel::LoadRules {
                script: script@,
                context: context@,
            },
            Step::DropRules => StepModel::DropRules,
            Step::RemoveGroup { dir } => StepModel::RemoveGroup { dir: dir@ },
            Step::RemoveBase => StepModel::RemoveBase,
            Step::PlaceProcesses => StepModel::PlaceProcesses,
        }
    }
}

impl StepModel {
    /// The step with its context inside another.
    pub open spec fn within(self, outer: Seq<char>) -> StepModel {
        match self {
            StepModel::Run { tool, args, context } => StepModel::Run {
                tool,
                args,
                context: nested(outer, context),
            },
            StepModel::LoadRules { script, context } => StepModel::LoadRules {
                script,
                context: nested(outer, context),
            },
            s => s,
        }
    }

    /// A command that must succeed.
    pub open spec fn run(tool: Tool, args: Seq<Seq<char>>) -> StepModel {
        StepModel::Run { tool, args, context: Seq::empty() }
    }

    /// A command whose failure is ignored.
    pub open spec fn attempt(tool: Tool, args: Seq<Seq<char>>) -> StepModel {
        StepModel::Try { tool, args }
    }

    /// Whether the operation fails where the step fails.
    pub open spec fn must_succeed(self) -> bool {
        self is Run || self is LoadRules
    }

    /// What the step is done for.
    pub open spec fn purpose(self) -> Seq<char> {
        match self {
            StepModel::Run { context, .. } => context,
            StepModel::LoadRules { context, .. } => context,
            _ => Seq::empty(),
        }
    }

    /// What follows for the operation from how the step went: nothing, unless it
    /// failed and must succeed.
    pub open spec fn result(self, failure: Option<Seq<char>>) -> Result<(), Seq<char>> {
        if failure is Some && self.must_succeed() {
            Err(explained(self.purpose(), failure->0))
        } else {
            Ok(())
        }
    }

    /// Whether the step only takes away: it creates no queue, class, filter or
    /// rule.
    pub open spec fn only_removes(self) -> bool {
        match self {
            StepModel::Try { tool, args } => args.len() > 1 && args[1] == "del"@,
            StepModel::ClearClasses => true,
            StepModel::DropRules => true,
            StepModel::RemoveGroup { .. } => true,
            StepModel::RemoveBase => true,
            _ => false,
        }
    }
}

/// Steps as values.
pub open spec fn plan(v: Seq<Step>) -> Seq<StepModel> {
    v.map_values(|s: Step| s@)
}

/// Steps with their contexts inside another.
pub open spec fn all_within(v: Seq<StepModel>, outer: Seq<char>) -> Seq<StepModel> {
    v.map_values(|s: StepModel| s.within(outer))
}

/// Texts as values.
pub open spec fn texts(w: Seq<&str>) -> Seq<Seq<char>> {
    Seq::new(w.len(), |i: int| w[i]@)
}

/// A command that must succeed.
pub fn run(tool: Tool, words: &[&str]) -> (r: Step)
    ensures
        r@ == StepModel::run(tool, texts(words@)),
{
    let r: Step = Step::Run { tool, args: strings(words), context: String::new() };
    assert(r@->Run_context =~= Seq::<char>::empty());
    assert(r@->Run_args =~= texts(words@));
    r
}

/// A command whose failure is ignored.
pub fn attempt(tool: Tool, words: &[&str]) -> (r: Step)
    ensures
        r@ == StepModel::attempt(tool, texts(words@)),
{
    let r: Step = Step::Try { tool, args: strings(words) };
    assert(r@->Try_args =~= texts(words@));
    r
}

fn nest(outer: &str, inner: String) -> (r: String)
    ensures
        r@ == nested(outer@, inner@),
{
    if inner.as_str().is_empty() {
        outer.to_string()
    } else {
        let mut r: String = outer.to_string();
        r.append(": ");
        r.append(inner.as_str());
        r
    }
}

/// A step with its context inside another.
pub fn within(s: Step, outer: &str) -> (r: Step)
    ensures
        r@ == s@.within(outer@),
{
    match s {
        Step::Run { tool, args, context } => Step::Run {
            tool,
            args,
            context: nest(outer, context),
        },
        Step::LoadRules { script, context } => Step::LoadRules {
            script,
            context: nest(outer, context),
        },
        s => s,
    }
}

/// Steps with their contexts inside another.
pub fn in_context(steps: Vec<Step>, outer: &str) -> (r: Vec<Step>)
    ensures
        plan(r@) == all_within(plan(steps@), outer@),
{
    let ghost all = steps@;
    let mut rest: Vec<Step> = steps;
    let mut r: Vec<Step> = Vec::new();
    assert(plan(all.skip(all.len() as int)) =~= Seq::empty());
    assert(plan(r@) =~= Seq::empty());
    assert(all.take(all.len() as int) =~= all);
    assert(plan(r@) =~= all_within(plan(all.skip(all.len() as int)), outer@));
    while rest.len() > 0
        invariant
            rest@.len() <= all.len(),
            rest@ == all.take(rest@.len() as int),
            plan(r@) == all_within(plan(all.skip(rest@.len() as int)), outer@),
        decreases rest@.len(),
    {
        let ghost n = rest@.len() as int;
        let ghost before = r@;
        match rest.pop() {
            Some(s) => {
                assert(s == all[n - 1]);
                let t: Step = within(s, outer);
                let ghost tm = t@;
                r.insert(0, t);
                assert(plan(r@) =~= seq![tm] + plan(before));
                assert(all_within(plan(all.skip(n - 1)), outer@) =~= seq![tm] + all_within(
                    plan(all.skip(n)),
                    outer@,
                ));
                assert(rest@ =~= all.take(n - 1));
            },
            None => {},
        }
    }
    assert(all.skip(0) =~= all);
    r
}

/// Append steps.
pub fn extend(v: &mut Vec<Step>, more: Vec<Step>)
    ensures
        plan(final(v)@) == plan(old(v)@) + plan(more@),
{
    let mut more: Vec<Step> = more;
    let ghost m = more@;
    v.append(&mut more);
    assert(plan(v@) =~= plan(old(v)@) + plan(m));
}

/// Append a step.
pub fn add_step(v: &mut Vec<Step>, s: Step)
    ensures
        plan(final(v)@) == plan(old(v)@).push(s@),
{
    let ghost m = s@;
    v.push(s);
    assert(plan(v@) =~= plan(old(v)@).push(m));
}

// ---- Failures ----------------------------------------------------------------

/// Words with one space between them.
pub open spec fn spaced(w: Seq<Seq<char>>) -> Seq<char>
    decreases w.len(),
{
    if w.len() == 0 {
        Seq::empty()
    } else if w.len() == 1 {
        w[0]
    } else {
        spaced(w.drop_last()) + " "@ + w.last()
    }
}

fn space(args: &Vec<String>) -> (r: String)
    ensures
        r@ == spaced(args.deep_view()),
{
    let ghost w = args.deep_view();
    let mut r: String = String::new();
    assert(w.take(0) =~= Seq::<Seq<char>>::empty());
    assert(r@ =~= Seq::<char>::empty());
    for i in 0..args.len()
        invariant
            w == args.deep_view(),
            r@ == spaced(w.take(i as int)),
    {
        assert(w.take(i + 1).drop_last() =~= w.take(i as int));
        assert(w.take(i + 1).last() == args@[i as int]@);
        if i > 0 {
            r.append(" ");
        }
        r.append(args[i].as_str());
        assert(r@ =~= spaced(w.take(i + 1)));
    }
    assert(w.take(args@.len() as int) =~= w);
    r
}

/// What is said of a command that failed.
pub open spec fn failure_text(
    program: Seq<char>,
    args: Seq<Seq<char>>,
    stderr: Seq<char>,
) -> Seq<char> {
    program + " "@ + spaced(args) + " failed: "@ + trim_end(trim_start(stderr))
}

/// Report a command that failed, with what it wrote about the failure.
pub fn command_failure(program: &str, args: &Vec<String>, stderr: &str) -> (r: String)
    ensures
        r@ == failure_text(program@, args.deep_view(), stderr@),
{
    let mut r: String = program.to_string();
    r.append(" ");
    let a: String = space(args);
    r.append(a.as_str());
    r.append(" failed: ");
    let t: String = trim(stderr);
    r.append(t.as_str());
    r
}

/// A failure with its context in front, where it has one.
pub open spec fn explained(context: Seq<char>, failure: Seq<char>) -> Seq<char> {
    if context.len() == 0 {
        failure
    } else {
        context + ": "@ + failure
    }
}

/// Say what a failed step was for.
pub fn explain(context: &str, failure: &str) -> (r: String)
    ensures
        r@ == explained(context@, failure@),
{
    if context.is_empty() {
        failure.to_string()
    } else {
        let mut r: String = context.to_string();
        r.append(": ");
        r.append(failure);
        r
    }
}

// ---- Outcomes ----------------------------------------------------------------

/// Decide how an operation goes on after a step, given how the step failed, if it
/// did. An error ends the operation.
pub fn after_step(step: &Step, failure: Option<&str>) -> (r: Result<(), String>)
    ensures
        r is Ok <==> failure is None || !step@.must_succeed(),
        r is Err ==> r->Err_0@ == explained(step@.purpose(), failure->0@),
{
    match failure {
        Some(f) => match step {
            Step::Run { context, .. } => Err(explain(context.as_str(), f)),
            Step::LoadRules { context, .. } => Err(explain(context.as_str(), f)),
            _ => Ok(()),
        },
        None => Ok(()),
    }
}

/// How many steps of a plan are taken, and how the operation ends, where each step
/// that is taken goes as given.
pub open spec fn carried(p: Seq<StepModel>, failures: Seq<Option<Seq<char>>>) -> (
    int,
    Result<(), Seq<char>>,
)
    decreases p.len(),
{
    if p.len() == 0 {
        (0, Ok(()))
    } else if p[0].result(failures[0]) is Err {
        (1, p[0].result(failures[0]))
    } else {
        let (n, r) = carried(p.skip(1), failures.skip(1));
        (n + 1, r)
    }
}

/// An operation succeeds exactly if every step that must succeed does. Otherwise the
/// first of them that fails is the last step taken, and its failure is that of the
/// operation.
pub proof fn law_first_failure_ends(p: Seq<StepModel>, failures: Seq<Option<Seq<char>>>)
    requires
        failures.len() == p.len(),
    ensures
        0 <= carried(p, failures).0 <= p.len(),
        carried(p, failures).1 is Ok <==> forall|i: int|
            0 <= i < p.len() && (#[trigger] p[i]).must_succeed() ==> failures[i] is None,
        carried(p, failures).1 is Ok ==> carried(p, failures).0 == p.len(),
        carried(p, failures).1 is Err ==> {
            let last = carried(p, failures).0 - 1;
            &&& 0 <= last < p.len()
            &&& p[last].must_succeed()
            &&& failures[last] is Some
            &&& carried(p, failures).1->Err_0 == explained(p[last].purpose(), failures[last]->0)
        },
        forall|i: int|
            0 <= i < carried(p, failures).0 - 1 && (#[trigger] p[i]).must_succeed()
                ==> failures[i] is None,
    decreases p.len(),
{
    if p.len() > 0 {
        if p[0].result(failures[0]) is Ok {
            let (q, f) = (p.skip(1), failures.skip(1));
            law_first_failure_ends(q, f);
            if carried(q, f).1 is Ok {
                assert forall|i: int| 0 <= i < p.len() && (#[trigger] p[i]).must_succeed() implies
                    failures[i] is None by {
                    if i > 0 {
                        assert(q[i - 1] == p[i] && f[i - 1] == failures[i]);
                    }
                }
            } else {
                let last = carried(q, f).0 - 1;
                assert(q[last] == p[last + 1] && f[last] == failures[last + 1]);
            }
            assert forall|i: int|
                0 <= i < carried(p, failures).0 - 1 && (#[trigger] p[i]).must_succeed() implies
                failures[i] is None by {
                if i > 0 {
                    assert(q[i - 1] == p[i] && f[i - 1] == failures[i]);
                }
            }
        } else {
            assert(p[0].must_succeed() && failures[0] is Some);
        }
    }
}

/// A context tells what a step is done for and leaves what it does: the tool, its words
/// and the rules that are loaded. Of two contexts the outer one comes first.
pub proof fn law_context_keeps_the_step(v: Seq<StepModel>, outer: Seq<char>, i: int)
    requires
        0 <= i < v.len(),
    ensures
        all_within(v, outer).len() == v.len(),
        ({
            let (s, t) = (v[i], all_within(v, outer)[i]);
            &&& s is Run ==> t is Run && t->Run_tool == s->Run_tool && t->Run_args == s->Run_args
            &&& s is LoadRules ==> t is LoadRules && t->LoadRules_script == s->LoadRules_script
            &&& !(s is Run) && !(s is LoadRules) ==> t == s
            &&& (s is Run || s is LoadRules) && s.purpose().len() == 0 ==> t.purpose() == outer
            &&& (s is Run || s is LoadRules) && s.purpose().len() > 0 ==> t.purpose() == outer
                + ": "@ + s.purpose()
        }),
{
}

/// Words are told with one space between them.
pub proof fn law_words_are_spaced(w: Seq<Seq<char>>, x: Seq<char>)
    ensures
        spaced(Seq::empty()) == Seq::<char>::empty(),
        spaced(seq![x]) == x,
        w.len() > 0 ==> spaced(w.push(x)) == spaced(w) + seq![' '] + x,
{
    reveal_strlit(" ");
    assert(" "@ =~= seq![' ']);
    assert(w.push(x).drop_last() =~= w);
}

/// A failed step that must succeed is told with its purpose, if it has one, and with
/// what went wrong; no other step fails an operation.
pub proof fn law_failure_is_told(s: StepModel, failure: Option<Seq<char>>)
    ensures
        s.result(failure) is Err <==> failure is Some && (s is Run || s is LoadRules),
        s.result(failure) is Err && s.purpose().len() == 0 ==> s.result(failure)->Err_0
            == failure->0,
        s.result(failure) is Err && s.purpose().len() > 0 ==> s.result(failure)->Err_0
            == s.purpose() + ": "@ + failure->0,
        s is Run ==> s.purpose() == s->Run_context,
        s is LoadRules ==> s.purpose() == s->LoadRules_context,
{
}

} // verus!
