//! The making of a page: the steps of a run, what the script is told about its surroundings, and
//! the lines that the subscriber reads.

use crate::json;
use crate::queue::{self, PatchOp, PatchQueueView};
use crate::response;
use crate::text::{self, NEWLINE};
use vstd::prelude::*;
use vstd::utf8::*;

verus! {

/// The largest stack of the script, in bytes.
pub const MAX_STACK_SIZE: usize = 1024 * 1024;

/// The value of the first variable with this name.
pub open spec fn first_value(
    environment: Seq<(Seq<char>, Seq<char>)>,
    name: Seq<char>,
) -> Option<Seq<char>>
    decreases environment.len(),
{
    if environment.len() == 0 {
        None
    } else if environment.first().0 == name {
        Some(environment.first().1)
    } else {
        first_value(environment.drop_first(), name)
    }
}

/// The key in an environment: the value of the first `ANTHROPIC_API_KEY`, or nothing.
pub open spec fn key_in(environment: Seq<(Seq<char>, Seq<char>)>) -> Seq<char> {
    match first_value(environment, "ANTHROPIC_API_KEY"@) {
        Some(key) => key,
        None => seq![],
    }
}

proof fn first_value_by_place(
    environment: Seq<(Seq<char>, Seq<char>)>,
    name: Seq<char>,
    at: int,
)
    requires
        0 <= at <= environment.len(),
        forall|i: int| 0 <= i < at ==> (#[trigger] environment[i]).0 != name,
        at < environment.len() ==> environment[at].0 == name,
    ensures
        first_value(environment, name) == if at < environment.len() {
            Some(environment[at].1)
        } else {
            None
        },
    decreases environment.len(),
{
    if environment.len() > 0 && at > 0 {
        let rest = environment.drop_first();
        assert(environment[0].0 != name);
        assert forall|i: int| 0 <= i < at - 1 implies (#[trigger] rest[i]).0 != name by {
            assert(rest[i] == environment[i + 1]);
        }
        first_value_by_place(rest, name, at - 1);
    }
}

/// The key is looked for in the whole environment, and the first variable of that name counts: where
/// none before `at` has the name, and the one at `at` does, the key is its value; and where none has
/// it, the key is empty.
pub proof fn key_is_the_first_of_its_name(environment: Seq<(Seq<char>, Seq<char>)>, at: int)
    requires
        0 <= at <= environment.len(),
        forall|i: int| 0 <= i < at ==> (#[trigger] environment[i]).0 != "ANTHROPIC_API_KEY"@,
        at < environment.len() ==> environment[at].0 == "ANTHROPIC_API_KEY"@,
    ensures
        key_in(environment) == if at < environment.len() {
            environment[at].1
        } else {
            Seq::<char>::empty()
        },
{
    first_value_by_place(environment, "ANTHROPIC_API_KEY"@, at);
}

/// The key in an environment of strings, by place.
proof fn key_by_place(environment: Seq<(String, String)>)
    ensures
        forall|i: int|
            0 <= i < environment.len() && (#[trigger] environment[i]).0@ == "ANTHROPIC_API_KEY"@ && (
            forall|j: int| 0 <= j < i ==> (#[trigger] environment[j]).0@ != "ANTHROPIC_API_KEY"@)
                ==> key_in(json::pair_views(environment)) == environment[i].1@,
        (forall|i: int|
            0 <= i < environment.len() ==> (#[trigger] environment[i]).0@ != "ANTHROPIC_API_KEY"@)
            ==> key_in(json::pair_views(environment)).len() == 0,
{
    let views = json::pair_views(environment);
    assert forall|i: int|
        0 <= i < environment.len() && (#[trigger] environment[i]).0@ == "ANTHROPIC_API_KEY"@
            && (forall|j: int|
            0 <= j < i ==> (#[trigger] environment[j]).0@
                != "ANTHROPIC_API_KEY"@) implies key_in(views) == environment[i].1@ by {
        assert forall|j: int| 0 <= j < i implies (#[trigger] views[j]).0
            != "ANTHROPIC_API_KEY"@ by {
            assert(environment[j].0@ != "ANTHROPIC_API_KEY"@);
        }
        key_is_the_first_of_its_name(views, i);
    }
    if forall|i: int|
        0 <= i < environment.len() ==> (#[trigger] environment[i]).0@
            != "ANTHROPIC_API_KEY"@ {
        assert forall|j: int| 0 <= j < views.len() implies (#[trigger] views[j]).0
            != "ANTHROPIC_API_KEY"@ by {
            assert(environment[j].0@ != "ANTHROPIC_API_KEY"@);
        }
        key_is_the_first_of_its_name(views, views.len() as int);
    }
}

/// Finds the key in the environment.
pub fn api_key(environment: &Vec<(String, String)>) -> (key: String)
    ensures
        key@ == key_in(json::pair_views(environment@)),
        forall|i: int|
            0 <= i < environment@.len() && (#[trigger] environment@[i]).0@ == "ANTHROPIC_API_KEY"@
                && (forall|j: int|
                0 <= j < i ==> (#[trigger] environment@[j]).0@ != "ANTHROPIC_API_KEY"@) ==> key@
                == environment@[i].1@,
        (forall|i: int|
            0 <= i < environment@.len() ==> (#[trigger] environment@[i]).0@
                != "ANTHROPIC_API_KEY"@) ==> key@.len() == 0,
{
    let name: String = "ANTHROPIC_API_KEY".to_owned();
    let ghost pairs = json::pair_views(environment@);
    let mut i: usize = 0;
    assert(pairs.skip(0) =~= pairs);
    while i < environment.len()
        invariant
            i <= environment@.len(),
            name@ == "ANTHROPIC_API_KEY"@,
            pairs == json::pair_views(environment@),
            first_value(pairs, name@) == first_value(pairs.skip(i as int), name@),
        decreases environment@.len() - i,
    {
        assert(pairs.skip(i as int).first() == (environment@[i as int].0@, environment@[
            i as int
        ].1@));
        if environment[i].0 == name {
            proof {
                key_by_place(environment@);
            }
            return environment[i].1.clone();
        }
        assert(pairs.skip(i as int).drop_first() =~= pairs.skip(i + 1));
        i = i + 1;
    }
    proof {
        key_by_place(environment@);
    }
    String::new()
}

/// The statement that gives the script its key.
pub open spec fn key_statement(key: Seq<char>) -> Seq<char> {
    "globalThis.process = { env: { ANTHROPIC_API_KEY: "@ + json::json_literal(key) + " } };"@
}

/// Writes the statement that gives the script its key.
pub fn setup_script(api_key: &str) -> (script: String)
    ensures
        script@ == key_statement(api_key@),
        script@ == "globalThis.process = { env: { ANTHROPIC_API_KEY: "@ + json::json_literal(
            api_key@,
        ) + " } };"@,
{
    let literal: String = json::string_literal(api_key);
    "globalThis.process = { env: { ANTHROPIC_API_KEY: ".to_owned().concat(literal.as_str()).concat(
        " } };",
    )
}

/// The script gets the key and no other: different keys give different statements.
pub proof fn key_statement_determines_the_key(a: Seq<char>, b: Seq<char>)
    requires
        key_statement(a) == key_statement(b),
    ensures
        a == b,
{
    let head = "globalThis.process = { env: { ANTHROPIC_API_KEY: "@;
    let tail = " } };"@;
    let whole = key_statement(a);
    let x = json::json_literal(a);
    let y = json::json_literal(b);
    assert(x =~= whole.subrange(head.len() as int, whole.len() - tail.len()));
    assert(y =~= whole.subrange(head.len() as int, whole.len() - tail.len()));
    json::json_literal_is_unambiguous(a, b);
}

/// A key of plain characters stands in the statement as it is, between quotation marks.
pub proof fn plain_key_stands_in_the_statement(key: Seq<char>)
    requires
        forall|i: int|
            0 <= i < key.len() ==> #[trigger] key[i] as u32 >= 32 && key[i] != '"' && key[i]
                != '\\',
    ensures
        key_statement(key) == "globalThis.process = { env: { ANTHROPIC_API_KEY: \""@ + key
            + "\" } };"@,
{
    reveal_strlit("globalThis.process = { env: { ANTHROPIC_API_KEY: ");
    reveal_strlit("globalThis.process = { env: { ANTHROPIC_API_KEY: \"");
    reveal_strlit(" } };");
    reveal_strlit("\" } };");
    json::plain_text_stands_as_it_is(key);
    assert(key_statement(key) =~= "globalThis.process = { env: { ANTHROPIC_API_KEY: \""@ + key
        + "\" } };"@);
}

/// The line that a patch becomes.
pub open spec fn line_of(patch: Seq<char>) -> Seq<u8> {
    encode_utf8(patch).push(NEWLINE)
}

/// Makes a line of a patch.
pub fn patch_line(patch: &str) -> (line: Vec<u8>)
    ensures
        line@ == line_of(patch@),
        line@ == encode_utf8(patch@).push(10u8),
{
    let mut line: Vec<u8> = patch.as_bytes_vec();
    line.push(NEWLINE);
    line
}

/// The stream that a number of patches become.
pub open spec fn stream_of(patches: Seq<Seq<char>>) -> Seq<u8> {
    patches.map_values(|patch: Seq<char>| line_of(patch)).flatten()
}

/// The stream grows by a line for each patch: its text, and a line feed.
pub proof fn stream_grows_by_a_line(patches: Seq<Seq<char>>, patch: Seq<char>)
    ensures
        stream_of(seq![]) == Seq::<u8>::empty(),
        stream_of(patches.push(patch)) == stream_of(patches) + encode_utf8(patch).push(10u8),
{
    let lines = patches.map_values(|patch: Seq<char>| line_of(patch));
    let none = Seq::<Seq<char>>::empty().map_values(|patch: Seq<char>| line_of(patch));
    assert(none =~= seq![]);
    assert(none.flatten() =~= seq![]);
    assert(patches.push(patch).map_values(|patch: Seq<char>| line_of(patch)) =~= lines.push(
        line_of(patch),
    ));
    lines.lemma_flatten_push(line_of(patch));
}

/// A step of a run.
#[derive(Clone, Copy, Debug, PartialEq, Eq, Structural)]
pub enum RunStep {
    CreateRuntime,
    LimitStack,
    CreateContext,
    LoadPage,
    SetKey,
    DefineStreamStart,
    DefineStreamRead,
    MakeOnPatch,
    FindGenerate,
    CallGenerate,
    AwaitPage,
    CollectGarbage,
    FinishPatches,
}

/// What follows a step.
#[derive(Clone, Copy, Debug, PartialEq, Eq, Structural)]
pub enum After {
    /// This step.
    Continue(RunStep),
    /// Nothing: the run breaks off.
    Abort,
    /// Nothing: the run is complete.
    Done,
}

/// The place of a step in the order of a run.
pub open spec fn place(step: RunStep) -> nat {
    match step {
        RunStep::CreateRuntime => 0,
        RunStep::LimitStack => 1,
        RunStep::CreateContext => 2,
        RunStep::LoadPage => 3,
        RunStep::SetKey => 4,
        RunStep::DefineStreamStart => 5,
        RunStep::DefineStreamRead => 6,
        RunStep::MakeOnPatch => 7,
        RunStep::FindGenerate => 8,
        RunStep::CallGenerate => 9,
        RunStep::AwaitPage => 10,
        RunStep::CollectGarbage => 11,
        RunStep::FinishPatches => 12,
    }
}

/// Without these the run cannot go on at all.
pub open spec fn is_vital(step: RunStep) -> bool {
    ||| step is CreateRuntime
    ||| step is CreateContext
    ||| step is LoadPage
    ||| step is SetKey
}

/// Where one of these fails, the page is given up, and the run is tidied up.
pub open spec fn is_script_step(step: RunStep) -> bool {
    place(RunStep::DefineStreamStart) <= place(step) <= place(RunStep::AwaitPage)
}

/// The steps of a run in which all goes well.
pub open spec fn order() -> Seq<RunStep> {
    seq![
        RunStep::CreateRuntime,
        RunStep::LimitStack,
        RunStep::CreateContext,
        RunStep::LoadPage,
        RunStep::SetKey,
        RunStep::DefineStreamStart,
        RunStep::DefineStreamRead,
        RunStep::MakeOnPatch,
        RunStep::FindGenerate,
        RunStep::CallGenerate,
        RunStep::AwaitPage,
        RunStep::CollectGarbage,
        RunStep::FinishPatches,
    ]
}

/// What follows a step that went well or failed: the next one in the order, but for a vital step
/// or a step of the script that failed.
pub open spec fn what_follows(step: RunStep, ok: bool) -> After {
    if !ok && is_vital(step) {
        After::Abort
    } else if !ok && is_script_step(step) {
        After::Continue(RunStep::CollectGarbage)
    } else if step is FinishPatches {
        After::Done
    } else {
        After::Continue(order()[place(step) as int + 1])
    }
}

/// Decides what follows a step that went well or failed.
pub fn after(step: RunStep, ok: bool) -> (next: After)
    ensures
        next == what_follows(step, ok),
        next is Done <==> step is FinishPatches,
        next is Abort <==> !ok && (step is CreateRuntime || step is CreateContext || step is LoadPage
            || step is SetKey),
        !ok && (step is DefineStreamStart || step is DefineStreamRead || step is MakeOnPatch
            || step is FindGenerate || step is CallGenerate || step is AwaitPage) ==> next
            == After::Continue(RunStep::CollectGarbage),
{
    match step {
        RunStep::CreateRuntime => if ok {
            After::Continue(RunStep::LimitStack)
        } else {
            After::Abort
        },
        RunStep::LimitStack => After::Continue(RunStep::CreateContext),
        RunStep::CreateContext => if ok {
            After::Continue(RunStep::LoadPage)
        } else {
            After::Abort
        },
        RunStep::LoadPage => if ok {
            After::Continue(RunStep::SetKey)
        } else {
            After::Abort
        },
        RunStep::SetKey => if ok {
            After::Continue(RunStep::DefineStreamStart)
        } else {
            After::Abort
        },
        RunStep::DefineStreamStart => if ok {
            After::Continue(RunStep::DefineStreamRead)
        } else {
            After::Continue(RunStep::CollectGarbage)
        },
        RunStep::DefineStreamRead => if ok {
            After::Continue(RunStep::MakeOnPatch)
        } else {
            After::Continue(RunStep::CollectGarbage)
        },
        RunStep::MakeOnPatch => if ok {
            After::Continue(RunStep::FindGenerate)
        } else {
            After::Continue(RunStep::CollectGarbage)
        },
        RunStep::FindGenerate => if ok {
            After::Continue(RunStep::CallGenerate)
        } else {
            After::Continue(RunStep::CollectGarbage)
        },
        RunStep::CallGenerate => if ok {
            After::Continue(RunStep::AwaitPage)
        } else {
            After::Continue(RunStep::CollectGarbage)
        },
        RunStep::AwaitPage => After::Continue(RunStep::CollectGarbage),
        RunStep::CollectGarbage => After::Continue(RunStep::FinishPatches),
        RunStep::FinishPatches => After::Done,
    }
}

/// Each step has its place in the order, and no other step has it.
pub proof fn order_is_by_place(step: RunStep)
    ensures
        place(step) < order().len(),
        order()[place(step) as int] == step,
        forall|i: int| 0 <= i < order().len() ==> place(#[trigger] order()[i]) == i,
{
}

/// The steps of a run that begins at `step`, where `ok` says how each of them goes.
pub open spec fn run_from(step: RunStep, ok: spec_fn(RunStep) -> bool) -> Seq<RunStep>
    decreases order().len() - place(step),
{
    match what_follows(step, ok(step)) {
        After::Continue(next) => if place(next) > place(step) {
            seq![step] + run_from(next, ok)
        } else {
            seq![]
        },
        _ => seq![step],
    }
}

proof fn run_goes_on(step: RunStep, ok: spec_fn(RunStep) -> bool)
    ensures
        run_from(step, ok).len() > 0,
        run_from(step, ok).first() == step,
        what_follows(step, ok(step)) matches After::Continue(next) ==> {
            &&& place(next) > place(step)
            &&& run_from(step, ok) == seq![step] + run_from(next, ok)
        },
{
    order_is_by_place(step);
    if let After::Continue(next) = what_follows(step, ok(step)) {
        assert(place(next) > place(step));
    }
}

/// A run does each step at most once and in order.
pub proof fn run_is_in_order(step: RunStep, ok: spec_fn(RunStep) -> bool)
    ensures
        forall|i: int, j: int|
            0 <= i < j < run_from(step, ok).len() ==> place(#[trigger] run_from(step, ok)[i])
                < place(#[trigger] run_from(step, ok)[j]),
    decreases order().len() - place(step),
{
    order_is_by_place(step);
    run_goes_on(step, ok);
    if let After::Continue(next) = what_follows(step, ok(step)) {
        run_is_in_order(next, ok);
        run_goes_on(next, ok);
        let run = run_from(step, ok);
        let rest = run_from(next, ok);
        assert forall|i: int, j: int| 0 <= i < j < run.len() implies place(#[trigger] run[i])
            < place(#[trigger] run[j]) by {
            assert(run[j] == rest[j - 1]);
            if i == 0 {
                assert(place(rest[0]) <= place(rest[j - 1]));
            } else {
                assert(run[i] == rest[i - 1]);
            }
        }
    }
}

/// From here on a run is complete unless a vital step fails, and breaks off there if one does.
proof fn run_ends(step: RunStep, ok: spec_fn(RunStep) -> bool)
    ensures
        ({
            let last = run_from(step, ok).last();
            &&& last is FinishPatches || is_vital(last) && !ok(last)
            &&& last is FinishPatches <==> forall|s: RunStep| #[trigger]
                is_vital(s) && place(step) <= place(s) ==> ok(s)
        }),
        place(step) < place(RunStep::FinishPatches) && run_from(step, ok).last() is FinishPatches
            ==> run_from(step, ok).len() >= 2 && run_from(step, ok)[run_from(step, ok).len() - 2]
            is CollectGarbage,
    decreases order().len() - place(step),
{
    order_is_by_place(step);
    run_goes_on(step, ok);
    match what_follows(step, ok(step)) {
        After::Continue(next) => {
            run_ends(next, ok);
            run_goes_on(next, ok);
            order_is_by_place(next);
            let run = run_from(step, ok);
            let rest = run_from(next, ok);
            assert(run.last() == rest.last());
            if rest.len() >= 2 {
                assert(run[run.len() - 2] == rest[rest.len() - 2]);
            } else {
                assert(run[0] == step);
            }
            if run.last() is FinishPatches {
                assert forall|s: RunStep| #[trigger] is_vital(s) && place(step) <= place(
                    s,
                ) implies ok(s) by {
                    order_is_by_place(s);
                    if place(s) == place(step) {
                        assert(s == step);
                    }
                }
            } else {
                assert(is_vital(run.last()));
                run_is_in_order(step, ok);
                assert(place(run[0]) <= place(run[run.len() - 1]));
            }
        },
        After::Abort => {
            assert(is_vital(step));
        },
        After::Done => {},
    }
}

/// Whatever fails in the script, the subscriber's stream is ended: the last steps of a run are to
/// collect the garbage and to finish the patches, unless a vital step fails, and then the run
/// breaks off at it.
pub proof fn run_finishes_the_patches(ok: spec_fn(RunStep) -> bool)
    ensures
        ({
            let run = run_from(RunStep::CreateRuntime, ok);
            if forall|s: RunStep| #[trigger] is_vital(s) ==> ok(s) {
                &&& run.len() >= 2
                &&& run.last() is FinishPatches
                &&& run[run.len() - 2] is CollectGarbage
            } else {
                &&& run.len() > 0
                &&& is_vital(run.last()) && !ok(run.last())
                &&& !run.contains(RunStep::FinishPatches)
            }
        }),
{
    let run = run_from(RunStep::CreateRuntime, ok);
    run_ends(RunStep::CreateRuntime, ok);
    run_goes_on(RunStep::CreateRuntime, ok);
    run_is_in_order(RunStep::CreateRuntime, ok);
    if !(run.last() is FinishPatches) && run.contains(RunStep::FinishPatches) {
        let i = choose|i: int| 0 <= i < run.len() && run[i] == RunStep::FinishPatches;
        assert(place(run[i]) < place(run[run.len() - 1]));
        order_is_by_place(run.last());
    }
}

/// A run takes its thirteen steps one after the other. A failure to make the runtime or the context,
/// to load the page or to set the key breaks it off there. A failure to prepare or to make the call
/// skips what is left of the script, and the tidying up is still done. No other failure changes
/// anything.
pub proof fn run_goes_as_far_as_nothing_fails(ok: spec_fn(RunStep) -> bool, at: int)
    requires
        ({
            let all = seq![
                RunStep::CreateRuntime,
                RunStep::LimitStack,
                RunStep::CreateContext,
                RunStep::LoadPage,
                RunStep::SetKey,
                RunStep::DefineStreamStart,
                RunStep::DefineStreamRead,
                RunStep::MakeOnPatch,
                RunStep::FindGenerate,
                RunStep::CallGenerate,
                RunStep::AwaitPage,
                RunStep::CollectGarbage,
                RunStep::FinishPatches,
            ];
            &&& at == 0 || 2 <= at <= 9 || at == 13
            &&& at < 13 ==> !ok(all[at])
            &&& forall|i: int| 0 <= i < at && i != 1 && i < 10 ==> ok(#[trigger] all[i])
        }),
    ensures
        ({
            let all = seq![
                RunStep::CreateRuntime,
                RunStep::LimitStack,
                RunStep::CreateContext,
                RunStep::LoadPage,
                RunStep::SetKey,
                RunStep::DefineStreamStart,
                RunStep::DefineStreamRead,
                RunStep::MakeOnPatch,
                RunStep::FindGenerate,
                RunStep::CallGenerate,
                RunStep::AwaitPage,
                RunStep::CollectGarbage,
                RunStep::FinishPatches,
            ];
            run_from(RunStep::CreateRuntime, ok) == if at == 13 {
                all
            } else if at <= 4 {
                all.take(at + 1)
            } else {
                all.take(at + 1) + seq![RunStep::CollectGarbage, RunStep::FinishPatches]
            }
        }),
{
    assert forall|i: int| 0 <= i < at && i != 1 && i < 10 implies ok(#[trigger] order()[i]) by {}
    run_part(ok, at, 0);
    let whole = run_of(at);
    assert(whole.skip(0) =~= whole);
}

/// The steps of a run whose first failure that matters is that of the step at this place.
spec fn run_of(at: int) -> Seq<RunStep> {
    if at == 13 {
        order()
    } else if at <= 4 {
        order().take(at + 1)
    } else {
        order().take(at + 1) + seq![RunStep::CollectGarbage, RunStep::FinishPatches]
    }
}

proof fn run_part(ok: spec_fn(RunStep) -> bool, at: int, from: int)
    requires
        at == 0 || 2 <= at <= 9 || at == 13,
        at < 13 ==> !ok(order()[at]),
        forall|i: int| 0 <= i < at && i != 1 && i < 10 ==> ok(#[trigger] order()[i]),
        0 <= from < 13,
        from <= at,
    ensures
        run_from(order()[from], ok) == run_of(at).skip(from),
    decreases 13 - from,
{
    let step = order()[from];
    run_goes_on(step, ok);
    order_is_by_place(step);
    if from == at {
        if at > 4 {
            run_goes_on(RunStep::CollectGarbage, ok);
            run_goes_on(RunStep::FinishPatches, ok);
            assert(run_from(RunStep::FinishPatches, ok) =~= seq![RunStep::FinishPatches]);
        }
        assert(run_from(step, ok) =~= run_of(at).skip(from));
    } else if from == 12 {
        assert(run_from(step, ok) =~= run_of(at).skip(from));
    } else {
        if from != 1 && from < 10 {
            assert(ok(order()[from]));
        }
        run_part(ok, at, from + 1);
        assert(run_of(at)[from] == step);
        assert(run_from(step, ok) =~= run_of(at).skip(from));
    }
}

/// The page is asked for only in a script that is ready for it: a run calls the page function
/// exactly where every step before that, but for the limit on the stack, went well.
pub proof fn page_is_called_when_all_is_ready(ok: spec_fn(RunStep) -> bool)
    ensures
        run_from(RunStep::CreateRuntime, ok).contains(RunStep::CallGenerate) <==> (forall|s: RunStep|
            #[trigger] place(s) < place(RunStep::CallGenerate) && !(s is LimitStack) ==> ok(s)),
{
    call_is_reached(RunStep::CreateRuntime, ok);
}

proof fn call_is_reached(step: RunStep, ok: spec_fn(RunStep) -> bool)
    requires
        place(step) <= place(RunStep::CallGenerate),
    ensures
        run_from(step, ok).contains(RunStep::CallGenerate) <==> (forall|s: RunStep|
            place(step) <= #[trigger] place(s) < place(RunStep::CallGenerate) && !(s is LimitStack)
                ==> ok(s)),
    decreases order().len() - place(step),
{
    let run = run_from(step, ok);
    order_is_by_place(step);
    run_goes_on(step, ok);
    run_is_in_order(step, ok);
    if step is CallGenerate {
        assert(run[0] == RunStep::CallGenerate);
        assert forall|s: RunStep| place(step) <= #[trigger] place(s) < place(
            RunStep::CallGenerate,
        ) implies ok(s) by {}
    } else {
        match what_follows(step, ok(step)) {
            After::Continue(next) => {
                let rest = run_from(next, ok);
                run_goes_on(next, ok);
                order_is_by_place(next);
                assert(run =~= seq![step] + rest);
                if rest.contains(RunStep::CallGenerate) {
                    let i = choose|i: int| 0 <= i < rest.len() && rest[i] == RunStep::CallGenerate;
                    assert(run[i + 1] == RunStep::CallGenerate);
                }
                if run.contains(RunStep::CallGenerate) {
                    let i = choose|i: int| 0 <= i < run.len() && run[i] == RunStep::CallGenerate;
                    assert(run[i] == rest[i - 1]);
                }
                if next is CollectGarbage {
                    run_is_in_order(next, ok);
                    assert(!rest.contains(RunStep::CallGenerate)) by {
                        if rest.contains(RunStep::CallGenerate) {
                            let i = choose|i: int|
                                0 <= i < rest.len() && rest[i] == RunStep::CallGenerate;
                            assert(place(rest[0]) <= place(rest[i]));
                        }
                    }
                    assert(!ok(step));
                    assert(place(step) < place(RunStep::CallGenerate) && !(step is LimitStack));
                } else {
                    call_is_reached(next, ok);
                    assert forall|s: RunStep| place(step) <= #[trigger] place(s) implies s == step
                        || place(next) <= place(s) by {
                        order_is_by_place(s);
                    }
                }
            },
            _ => {
                assert(run =~= seq![step]);
                if run.contains(RunStep::CallGenerate) {
                    let i = choose|i: int| 0 <= i < run.len() && run[i] == RunStep::CallGenerate;
                    assert(run[i] == step);
                }
                assert(!ok(step));
                assert(place(step) < place(RunStep::CallGenerate) && !(step is LimitStack));
            },
        }
    }
}

/// Where a read of the script gets its chunk.
pub enum StreamRead<'a, Q> {
    /// No request was made yet: the read gets the end.
    End,
    /// The next chunk of this queue.
    From(&'a Q),
}

/// The stream that the script reads: that of the last request it made.
///
/// A stream is a queue of chunks of any kind `Q`.
pub struct ActiveStream<Q> {
    current: Option<Q>,
}

impl<Q> View for ActiveStream<Q> {
    type V = Option<Q>;

    closed spec fn view(&self) -> Option<Q> {
        self.current
    }
}

impl<Q> ActiveStream<Q> {
    /// Before any request.
    pub fn new() -> (stream: Self)
        ensures
            stream@ is None,
    {
        ActiveStream { current: None }
    }

    /// A request was made, whose chunks come to `queue`.
    pub fn start(&mut self, queue: Q)
        ensures
            final(self)@ == Some(queue),
    {
        self.current = Some(queue);
    }

    /// Where a read that begins now gets its chunk.
    pub fn read(&self) -> (from: StreamRead<'_, Q>)
        ensures
            from == match self@ {
                Some(queue) => StreamRead::From(&queue),
                None => StreamRead::End,
            },
    {
        match &self.current {
            Some(queue) => StreamRead::From(queue),
            None => StreamRead::End,
        }
    }
}

/// A line that comes after complete lines is the next line.
proof fn line_after_lines(before: Seq<u8>, text: Seq<u8>)
    requires
        response::unfinished(before).len() == 0,
        forall|i: int| 0 <= i < text.len() ==> #[trigger] text[i] != NEWLINE,
    ensures
        response::lines(before + text) == response::lines(before),
        response::unfinished(before + text) == text,
        response::lines((before + text).push(NEWLINE)) == response::lines(before).push(
            text.push(NEWLINE),
        ),
        response::unfinished((before + text).push(NEWLINE)).len() == 0,
    decreases text.len(),
{
    if text.len() == 0 {
        assert(before + text =~= before);
        assert(response::unfinished(before + text) =~= text);
    } else {
        let shorter = text.drop_last();
        assert(text[text.len() - 1] != NEWLINE);
        assert forall|i: int| 0 <= i < shorter.len() implies #[trigger] shorter[i]
            != NEWLINE by {
            assert(shorter[i] == text[i]);
        }
        line_after_lines(before, shorter);
        assert((before + text).drop_last() =~= before + shorter);
        assert((before + text).last() == text.last());
        assert(response::unfinished(before + text) =~= text);
    }
    let whole = (before + text).push(NEWLINE);
    assert(whole.drop_last() =~= before + text);
    assert(whole.last() == NEWLINE);
    assert(response::lines(whole) == response::lines(whole.drop_last()).push(
        response::unfinished(whole.drop_last()).push(NEWLINE),
    ));
}

/// The subscriber gets each patch as one line: where no patch holds a line feed, the lines of the
/// stream are the patches, in order, each with a line feed after it.
pub proof fn patches_are_the_lines_of_the_stream(patches: Seq<Seq<char>>)
    requires
        forall|i: int| 0 <= i < patches.len() ==> !(#[trigger] patches[i]).contains('\n'),
    ensures
        response::chunks(stream_of(patches)) == patches.map_values(
            |patch: Seq<char>| line_of(patch),
        ),
        response::texts(response::chunks(stream_of(patches))) == patches.map_values(
            |patch: Seq<char>| patch.push('\n'),
        ),
{
    let lines = patches.map_values(|patch: Seq<char>| line_of(patch));
    stream_ends_in_a_line(patches);
    let read = response::texts(response::chunks(stream_of(patches)));
    let expected = patches.map_values(|patch: Seq<char>| patch.push('\n'));
    assert forall|i: int| 0 <= i < patches.len() implies #[trigger] read[i] == expected[i] by {
        assert(read[i] == text::lossy_text(lines[i]));
        line_is_the_patch(patches[i]);
    }
    assert(read =~= expected);
}

/// The text of a line is the patch and a line feed.
proof fn line_is_the_patch(patch: Seq<char>)
    ensures
        line_of(patch) == encode_utf8(patch.push('\n')),
        text::lossy_text(line_of(patch)) == patch.push('\n'),
{
    text::encode_push_newline(patch);
    encode_utf8_valid_utf8(patch.push('\n'));
    encode_utf8_decode_utf8(patch.push('\n'));
}

proof fn stream_ends_in_a_line(patches: Seq<Seq<char>>)
    requires
        forall|i: int| 0 <= i < patches.len() ==> !(#[trigger] patches[i]).contains('\n'),
    ensures
        response::unfinished(stream_of(patches)).len() == 0,
        response::lines(stream_of(patches)) == patches.map_values(
            |patch: Seq<char>| line_of(patch),
        ),
    decreases patches.len(),
{
    let lines = patches.map_values(|patch: Seq<char>| line_of(patch));
    if patches.len() == 0 {
        assert(lines.flatten() =~= seq![]);
        assert(response::lines(stream_of(patches)) =~= lines);
    } else {
        let earlier = patches.drop_last();
        let earlier_lines = earlier.map_values(|patch: Seq<char>| line_of(patch));
        let last = patches.last();
        assert forall|i: int| 0 <= i < earlier.len() implies !(#[trigger] earlier[i]).contains(
            '\n',
        ) by {
            assert(earlier[i] == patches[i]);
        }
        stream_ends_in_a_line(earlier);
        assert(lines =~= earlier_lines.push(line_of(last)));
        earlier_lines.lemma_flatten_push(line_of(last));
        assert(patches[patches.len() - 1] == last);
        text::text_without_newline(last);
        line_after_lines(stream_of(earlier), encode_utf8(last));
        assert(stream_of(patches) =~= (stream_of(earlier) + encode_utf8(last)).push(
            NEWLINE,
        ));
    }
}

/// A stream that has come to its end holds every patch: once the queue of patches says that this is
/// the end, what was read from it makes the stream of all the patches that were pushed, in order.
/// Where no patch holds a line feed, its lines are these patches.
pub proof fn finished_stream_holds_every_patch<W>(ops: Seq<PatchOp<W>>)
    requires
        PatchQueueView::<W>::fresh().after(ops).answer() == queue::NextView::Ready(None),
    ensures
        stream_of(PatchQueueView::<W>::fresh().delivered(ops)) == stream_of(
            queue::patches_added(ops),
        ),
        (forall|i: int|
            0 <= i < queue::patches_added(ops).len() ==> !(#[trigger] queue::patches_added(
                ops,
            )[i]).contains('\n')) ==> response::chunks(
            stream_of(PatchQueueView::<W>::fresh().delivered(ops)),
        ) == queue::patches_added(ops).map_values(|patch: Seq<char>| line_of(patch)),
{
    queue::patch_queue_ends_after_last_patch(ops);
    if forall|i: int|
        0 <= i < queue::patches_added(ops).len() ==> !(#[trigger] queue::patches_added(
            ops,
        )[i]).contains('\n') {
        patches_are_the_lines_of_the_stream(queue::patches_added(ops));
    }
}

} // verus!
