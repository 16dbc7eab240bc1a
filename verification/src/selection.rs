//! Which target of a job is run.

use vstd::prelude::*;
use crate::accelerator::{
    adapter, adapter_of, configuration, devices_view, matching, matching_of, Adapter, Inventory,
    InventoryView,
};
use crate::error::{outcome, Error};
use crate::map::{keys, lookup, StringMap};
use crate::model::{fault, ComputeJob, Target, TargetSummary};
use crate::path::{components, is_within_any, parts, within, within_any};
use crate::task::lemma_either;
use crate::text::{copy_strings, glue, join, joined, same, text_of, texts};

verus! {

/// The target that a name stands for, or the only one there is.
pub open spec fn named(targets: Seq<(Seq<char>, TargetSummary)>, explicit: Option<Seq<char>>) -> Result<
    Seq<char>,
    Seq<Seq<char>>,
> {
    match explicit {
        Some(name) => if lookup(targets, name) is Some {
            Ok(name)
        } else {
            Err(seq!["unknown target "@ + name])
        },
        None => if targets.len() == 1 {
            Ok(targets[0].0)
        } else {
            Err(seq!["--target is required; declared targets: "@ + joined(keys(targets), ", "@)])
        },
    }
}

fn target_names(targets: &StringMap<TargetSummary>) -> (r: Vec<String>)
    ensures
        texts(r@) == keys(targets@),
{
    let mut out: Vec<String> = Vec::new();
    let mut i: usize = 0;
    while i < targets.len()
        invariant
            i <= targets@.len(),
            out@.len() == i,
            forall|k: int| 0 <= k < i ==> (#[trigger] out@[k])@ == targets@[k].0,
        decreases targets@.len() - i,
    {
        out.push(targets.key(i).clone());
        i += 1;
    }
    assert(texts(out@) =~= keys(targets@));
    out
}

/// The target that a name stands for, or the only one there is.
pub fn named_target(job: &ComputeJob, explicit: &Option<String>) -> (r: Result<String, Error>)
    ensures
        outcome(r) == named(job.targets@, text_of(*explicit)),
{
    match explicit {
        Some(name) => if job.targets.contains_key(name.as_str()) {
            Ok(name.clone())
        } else {
            Err(Error::of(glue("unknown target ", name.as_str())))
        },
        None => if job.targets.len() == 1 {
            Ok(job.targets.key(0).clone())
        } else {
            let names = join(&target_names(&job.targets), ", ");
            Err(Error::of(glue("--target is required; declared targets: ", names.as_str())))
        },
    }
}

/// The targets that are tried: the one that was asked for, or all of them.
pub open spec fn tried(targets: Seq<(Seq<char>, TargetSummary)>, explicit: Option<Seq<char>>) -> Result<
    Seq<Seq<char>>,
    Seq<Seq<char>>,
> {
    match explicit {
        Some(name) => if lookup(targets, name) is Some {
            Ok(seq![name])
        } else {
            Err(seq!["unknown target "@ + name])
        },
        None => Ok(keys(targets)),
    }
}

/// The targets that are tried.
pub fn candidate_names(job: &ComputeJob, explicit: &Option<String>) -> (r: Result<
    Vec<String>,
    Error,
>)
    ensures
        match r {
            Ok(v) => tried(job.targets@, text_of(*explicit)) == Ok::<
                Seq<Seq<char>>,
                Seq<Seq<char>>,
            >(texts(v@)),
            Err(e) => tried(job.targets@, text_of(*explicit)) == Err::<
                Seq<Seq<char>>,
                Seq<Seq<char>>,
            >(e@),
        },
{
    match explicit {
        Some(name) => {
            if !job.targets.contains_key(name.as_str()) {
                return Err(Error::of(glue("unknown target ", name.as_str())));
            }
            let mut out: Vec<String> = Vec::new();
            out.push(name.clone());
            assert(texts(out@) =~= seq![name@]);
            Ok(out)
        },
        None => Ok(target_names(&job.targets)),
    }
}

/// Whether the devices of a node can be handed to a target.
pub open spec fn device_fit(target: Target, inventory: InventoryView) -> Result<
    (),
    Seq<Seq<char>>,
> {
    let wanted = target.summary.accelerator;
    match matching_of(wanted, inventory) {
        Err(e) => Err(e),
        Ok(found) => match adapter_of(wanted.id@) {
            None => fault("unknown accelerator "@ + wanted.id@),
            Some(a) => match configuration(
                a,
                if wanted.id@ == "cpu"@ {
                    found
                } else {
                    found.take(wanted.count as int)
                },
                inventory,
            ) {
                Err(e) => Err(e),
                Ok(_) => Ok(()),
            },
        },
    }
}

/// Whether the devices of a node can be handed to a target.
pub fn check_devices(target: &Target, inventory: &Inventory) -> (r: Result<(), Error>)
    ensures
        outcome(r) == device_fit(*target, inventory@),
{
    let wanted = &target.summary.accelerator;
    let mut found = match matching(wanted, inventory) {
        Ok(f) => f,
        Err(e) => {
            return Err(e);
        },
    };
    let backend = match adapter(wanted.id.as_str()) {
        Ok(a) => a,
        Err(e) => {
            return Err(e);
        },
    };
    if !same(wanted.id.as_str(), "cpu") {
        let ghost all = devices_view(found@);
        found.truncate(wanted.count as usize);
        assert(devices_view(found@) =~= all.take(wanted.count as int));
    }
    match backend.configure(found.as_slice(), inventory) {
        Ok(_) => Ok(()),
        Err(e) => Err(e),
    }
}

/// The program that was built must be the one that the target names.
pub open spec fn program_check(built: Seq<char>, declared: Seq<char>) -> Result<
    (),
    Seq<Seq<char>>,
> {
    if built == declared {
        Ok(())
    } else {
        fault("program metadata differs from built output"@)
    }
}

/// The program that was built must be the one that the target names.
pub fn check_program(built: &str, target: &Target) -> (r: Result<(), Error>)
    ensures
        outcome(r) == program_check(built@, target.program@),
{
    if same(built, target.program.as_str()) {
        Ok(())
    } else {
        Err(Error::new("program metadata differs from built output"))
    }
}

/// What the closure of a run is computed from: everything that was built for it, and the
/// runtime packages.
pub open spec fn run_roots(
    program: Seq<char>,
    runtime: Option<Seq<char>>,
    probe: Option<Seq<char>>,
    image: Option<Seq<char>>,
    runtime_paths: Seq<Seq<char>>,
) -> Seq<Seq<char>> {
    seq![program] + optional(runtime) + optional(probe) + optional(image) + runtime_paths
}

/// One text or none.
pub open spec fn optional(o: Option<Seq<char>>) -> Seq<Seq<char>> {
    match o {
        Some(s) => seq![s],
        None => Seq::empty(),
    }
}

fn push_optional(out: &mut Vec<String>, o: &Option<String>)
    ensures
        texts(final(out)@) == texts(old(out)@) + optional(text_of(*o)),
{
    let ghost done = texts(out@);
    if let Some(s) = o {
        out.push(s.clone());
        assert(texts(out@) =~= done + seq![s@]);
    }
    assert(texts(out@) =~= done + optional(text_of(*o)));
}

/// What the closure of a run is computed from.
pub fn closure_roots(
    program: &str,
    runtime: &Option<String>,
    probe: &Option<String>,
    image: &Option<String>,
    target: &Target,
) -> (r: Vec<String>)
    ensures
        texts(r@) == run_roots(
            program@,
            text_of(*runtime),
            text_of(*probe),
            text_of(*image),
            texts(target.runtime_paths@),
        ),
{
    let mut out: Vec<String> = Vec::new();
    out.push(program.to_owned());
    assert(texts(out@) =~= seq![program@]);
    push_optional(&mut out, runtime);
    push_optional(&mut out, probe);
    push_optional(&mut out, image);
    let ghost done = texts(out@);
    let mut more = copy_strings(&target.runtime_paths);
    out.append(&mut more);
    assert(texts(out@) =~= done + texts(target.runtime_paths@));
    out
}

/// What is built for a target, one after the other: on the host its probe and its runtime, if it
/// has them, and at last its image or else its program.
pub open spec fn built_outputs(target: Target) -> Seq<Seq<char>> {
    (if target.summary.executor@ == "native"@ {
        optional(text_of(target.probe_output)) + optional(text_of(target.runtime_output))
    } else {
        Seq::empty()
    }) + seq![
        match text_of(target.image_output) {
            Some(image) => image,
            None => target.program_output@,
        },
    ]
}

/// What is built for a target, what it runs last.
pub fn outputs_to_build(target: &Target) -> (r: Vec<String>)
    ensures
        texts(r@) == built_outputs(*target),
{
    let mut out: Vec<String> = Vec::new();
    assert(texts(out@) =~= Seq::empty());
    if same(target.summary.executor.as_str(), "native") {
        push_optional(&mut out, &target.probe_output);
        push_optional(&mut out, &target.runtime_output);
    }
    let ghost done = texts(out@);
    let last = match &target.image_output {
        Some(image) => image.clone(),
        None => target.program_output.clone(),
    };
    out.push(last);
    assert(texts(out@) =~= done + seq![last@]);
    assert(texts(out@) =~= built_outputs(*target));
    out
}

/// The entrypoint must lie in the closure once every link is followed.
pub open spec fn entrypoint_check(executable: Seq<char>, closure: Seq<Seq<char>>) -> Result<
    (),
    Seq<Seq<char>>,
> {
    if within_any(parts(executable), closure) {
        Ok(())
    } else {
        fault("entrypoint is outside the declared program/runtime closure"@)
    }
}

/// The entrypoint must lie in the closure once every link is followed.
pub fn check_entrypoint(executable: &str, closure: &Vec<String>) -> (r: Result<(), Error>)
    ensures
        outcome(r) == entrypoint_check(executable@, texts(closure@)),
{
    if is_within_any(&components(executable), closure) {
        Ok(())
    } else {
        Err(Error::new("entrypoint is outside the declared program/runtime closure"))
    }
}

/// A target that was asked for is taken exactly where it is declared; without a wish the only one
/// there is is taken, and all of them are tried where that is allowed.
pub proof fn law_asked_targets_are_taken(targets: Seq<(Seq<char>, TargetSummary)>, name: Seq<char>)
    ensures
        named(targets, Some(name)) is Ok <==> lookup(targets, name) is Some,
        named(targets, Some(name)) matches Ok(n) ==> n == name,
        named(targets, None) is Ok <==> targets.len() == 1,
        named(targets, None) matches Ok(n) ==> n == targets[0].0,
        tried(targets, Some(name)) is Ok <==> lookup(targets, name) is Some,
        tried(targets, Some(name)) matches Ok(names) ==> names == seq![name],
        tried(targets, None) matches Ok(names) && names.len() == targets.len() && forall|i: int|
            0 <= i < targets.len() ==> #[trigger] names[i] == targets[i].0,
{
}

/// The devices of a node fit a target exactly where enough of them match, and the backend can hand
/// over the first of them, as many as were asked for.
pub proof fn law_devices_fit_where_they_can_be_handed_over(
    target: Target,
    inventory: InventoryView,
    a: Adapter,
)
    requires
        adapter_of(target.summary.accelerator.id@) == Some(a),
        target.summary.accelerator.id@ != "cpu"@,
    ensures
        device_fit(target, inventory) is Ok <==> (matching_of(
            target.summary.accelerator,
            inventory,
        ) matches Ok(found) && configuration(
            a,
            found.take(target.summary.accelerator.count as int),
            inventory,
        ) is Ok),
{
}

/// What was built must be what was declared, and what is started must lie in a path of its
/// closure.
pub proof fn law_built_programs_are_the_declared(
    built: Seq<char>,
    declared: Seq<char>,
    closure: Seq<Seq<char>>,
)
    ensures
        program_check(built, declared) is Ok <==> built == declared,
        entrypoint_check(built, closure) is Ok <==> exists|i: int|
            0 <= i < closure.len() && within(parts(built), parts(#[trigger] closure[i])),
{
}

/// The closure of a run is computed from everything that was built for it and from its runtime
/// packages, and from nothing else.
pub proof fn law_closures_hold_all_that_was_built(
    program: Seq<char>,
    runtime: Option<Seq<char>>,
    probe: Option<Seq<char>>,
    image: Option<Seq<char>>,
    paths: Seq<Seq<char>>,
    path: Seq<char>,
)
    ensures
        run_roots(program, runtime, probe, image, paths).contains(path) <==> path == program
            || runtime == Some(path) || probe == Some(path) || image == Some(path)
            || paths.contains(path),
{
    let a = seq![program];
    let b = optional(runtime);
    let c = optional(probe);
    let d = optional(image);
    lemma_either(a, b, path);
    lemma_either(a + b, c, path);
    lemma_either(a + b + c, d, path);
    lemma_either(a + b + c + d, paths, path);
    assert(a[0] == program);
    lemma_optional(runtime, path);
    lemma_optional(probe, path);
    lemma_optional(image, path);
}

proof fn lemma_optional(o: Option<Seq<char>>, path: Seq<char>)
    ensures
        optional(o).contains(path) <==> o == Some(path),
{
    if o is Some {
        assert(optional(o)[0] == o->0);
    }
}

/// What a target runs is built last: its image, or its program where it has none. Before that its
/// probe and its runtime are built where it runs on the host.
pub proof fn law_what_runs_is_built_last(target: Target, path: Seq<char>)
    ensures
        built_outputs(target).len() > 0,
        target.image_output matches Some(image) ==> built_outputs(target).last() == image@,
        target.image_output is None ==> built_outputs(target).last() == target.program_output@,
        target.summary.executor@ != "native"@ ==> built_outputs(target).len() == 1,
        target.summary.executor@ == "native"@ ==> (built_outputs(target).drop_last().contains(path)
            <==> text_of(target.probe_output) == Some(path) || text_of(target.runtime_output)
            == Some(path)),
{
    let a = optional(text_of(target.probe_output));
    let b = optional(text_of(target.runtime_output));
    lemma_either(a, b, path);
    lemma_optional(text_of(target.probe_output), path);
    lemma_optional(text_of(target.runtime_output), path);
    if target.summary.executor@ == "native"@ {
        assert(built_outputs(target).drop_last() =~= a + b);
    }
}

/// What is asked of a job and what was built for it is answered by what it declares.
pub proof fn law_choices_go_by_the_declaration(
    job: &ComputeJob,
    explicit: &Option<String>,
    name: Result<String, Error>,
    candidates: Result<Vec<String>, Error>,
    target: &Target,
    inventory: &Inventory,
    fit: Result<(), Error>,
    built: &str,
    program: Result<(), Error>,
    closure: &Vec<String>,
    inside: Result<(), Error>,
    outputs: Vec<String>,
)
    requires
        call_ensures(named_target, (job, explicit), name),
        call_ensures(candidate_names, (job, explicit), candidates),
        call_ensures(check_devices, (target, inventory), fit),
        call_ensures(check_program, (built, target), program),
        call_ensures(check_entrypoint, (built, closure), inside),
        call_ensures(outputs_to_build, (target,), outputs),
    ensures
        *explicit is Some ==> (name is Ok <==> lookup(job.targets@, (*explicit)->0@) is Some),
        *explicit is Some && name is Ok ==> name->Ok_0@ == (*explicit)->0@,
        *explicit is None ==> (name is Ok <==> job.targets@.len() == 1),
        *explicit is None && name is Ok ==> name->Ok_0@ == job.targets@[0].0,
        *explicit is None ==> (candidates matches Ok(all) && all@.len() == job.targets@.len()),
        fit is Ok <==> device_fit(*target, inventory@) is Ok,
        program is Ok <==> built@ == target.program@,
        inside is Ok <==> within_any(parts(built@), texts(closure@)),
        outputs@.len() > 0 && texts(outputs@).last() == (match target.image_output {
            Some(image) => image@,
            None => target.program_output@,
        }),
{
    law_asked_targets_are_taken(job.targets@, Seq::empty());
    law_what_runs_is_built_last(*target, Seq::empty());
    assert(texts(outputs@).len() == outputs@.len());
    if *explicit is None {
        if let Ok(all) = candidates {
            assert(texts(all@).len() == all@.len());
        }
    }
}

} // verus!
