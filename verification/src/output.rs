//! Writing a self-contained output directory: which action comes next, given
//! how the last one went.
//!
//! The output is built in a staging directory next to its target first and
//! swapped into place only after every fragment is materialized, so a
//! registry failure partway through never leaves a partial tree at the
//! target.

use vstd::prelude::*;

use crate::fragment;
use crate::loader;
use crate::loader::{LayeredMetadata, LoadedFragment, LoadedView};
use crate::manifest::FragmentSource;
use crate::mount::MountMaterialization;
use crate::path;
use crate::path::join_path;
use crate::registry;
use crate::registry::MountAnnotationView;
use crate::self_contained;
use crate::self_contained::{
    check_target, containing, mount_gitignore_contents, sentinel_contents, TargetProbe,
    TargetState, TargetView, GITIGNORE_FILENAME, OUTPUT_DIR_MODE, SENTINEL_FILENAME,
};
use crate::text;

verus! {

/// One thing to do.
#[derive(Debug, Clone)]
pub enum OutputAction {
    /// Look at what stands at the target.
    ProbeTarget { dir: String },
    /// Create a directory and those above it.
    CreateDirs { path: String },
    /// Create a staging directory in `parent`. It must lie there and not in
    /// the system's place for temporary files: moving it into place is atomic
    /// only within a filesystem, and the guarantee that no partial output is
    /// left rests on that.
    CreateStaging { parent: String },
    /// Write a file.
    WriteFile { path: String, contents: String },
    /// Copy a file.
    CopyFile { from: String, to: String },
    /// Materialize the fragment of an image.
    Materialize { image_ref: String, dest: String },
    /// Restrict the mount material of a materialized fragment to its owner.
    RestrictMounts { fragment_dir: String },
    /// Set the mode of a directory.
    SetMode { path: String, mode: u32 },
    /// Move what stands at the target aside. This is one rename: either it
    /// happens, or the target stays as it is.
    SetAside { dir: String, aside: String },
    /// Keep the staging directory and move it to the target, by one rename.
    Publish { staging: String, dir: String },
    /// Move what was set aside back to the target, by one rename.
    Restore { aside: String, dir: String },
    /// Remove a directory and everything in it.
    RemoveDir { path: String },
    /// Give the staging directory up and remove it.
    Discard { staging: String },
}

/// What an [`OutputAction`] says.
pub enum ActionView {
    ProbeTarget { dir: Seq<char> },
    CreateDirs { path: Seq<char> },
    CreateStaging { parent: Seq<char> },
    WriteFile { path: Seq<char>, contents: Seq<char> },
    CopyFile { from: Seq<char>, to: Seq<char> },
    Materialize { image_ref: Seq<char>, dest: Seq<char> },
    RestrictMounts { fragment_dir: Seq<char> },
    SetMode { path: Seq<char>, mode: u32 },
    SetAside { dir: Seq<char>, aside: Seq<char> },
    Publish { staging: Seq<char>, dir: Seq<char> },
    Restore { aside: Seq<char>, dir: Seq<char> },
    RemoveDir { path: Seq<char> },
    Discard { staging: Seq<char> },
}

impl View for OutputAction {
    type V = ActionView;

    open spec fn view(&self) -> ActionView {
        match self {
            OutputAction::ProbeTarget { dir } => ActionView::ProbeTarget { dir: dir@ },
            OutputAction::CreateDirs { path } => ActionView::CreateDirs { path: path@ },
            OutputAction::CreateStaging { parent } => ActionView::CreateStaging {
                parent: parent@,
            },
            OutputAction::WriteFile { path, contents } => ActionView::WriteFile {
                path: path@,
                contents: contents@,
            },
            OutputAction::CopyFile { from, to } => ActionView::CopyFile { from: from@, to: to@ },
            OutputAction::Materialize { image_ref, dest } => ActionView::Materialize {
                image_ref: image_ref@,
                dest: dest@,
            },
            OutputAction::RestrictMounts { fragment_dir } => ActionView::RestrictMounts {
                fragment_dir: fragment_dir@,
            },
            OutputAction::SetMode { path, mode } => ActionView::SetMode {
                path: path@,
                mode: *mode,
            },
            OutputAction::SetAside { dir, aside } => ActionView::SetAside {
                dir: dir@,
                aside: aside@,
            },
            OutputAction::Publish { staging, dir } => ActionView::Publish {
                staging: staging@,
                dir: dir@,
            },
            OutputAction::Restore { aside, dir } => ActionView::Restore {
                aside: aside@,
                dir: dir@,
            },
            OutputAction::RemoveDir { path } => ActionView::RemoveDir { path: path@ },
            OutputAction::Discard { staging } => ActionView::Discard { staging: staging@ },
        }
    }
}

/// How an action went.
#[derive(Debug, Clone)]
pub enum OutputEvent {
    /// What was found at the target.
    Probed(TargetProbe),
    /// The staging directory that was created.
    Staged(String),
    /// It was done.
    Done,
    /// It failed, with a message.
    Failed(String),
}

/// An action, and what stands before the message of its failure.
#[derive(Debug, Clone)]
pub struct OutputStep {
    pub action: OutputAction,
    pub context: String,
}

/// What an [`OutputStep`] says.
pub struct StepView {
    pub action: ActionView,
    pub context: Seq<char>,
}

impl View for OutputStep {
    type V = StepView;

    open spec fn view(&self) -> StepView {
        StepView { action: self.action@, context: self.context@ }
    }
}

/// What each step of a list says.
pub open spec fn step_views(steps: Seq<OutputStep>) -> Seq<StepView> {
    steps.map_values(|s: OutputStep| s@)
}

/// What is to be written, and where.
pub struct OutputJob<'a> {
    /// The output directory.
    pub dir: &'a str,
    /// The manifest that is copied into it.
    pub manifest_path: &'a str,
    /// The generated Containerfile.
    pub containerfile: &'a str,
    /// The fragments that are materialized into it.
    pub fragments: &'a [LoadedFragment],
    /// Whether their mount material is.
    pub mounts: MountMaterialization,
}

/// What an [`OutputJob`] says.
pub struct JobView {
    pub dir: Seq<char>,
    pub manifest_path: Seq<char>,
    pub containerfile: Seq<char>,
    pub fragments: Seq<LoadedView>,
    pub mounts: MountMaterialization,
}

impl<'a> View for OutputJob<'a> {
    type V = JobView;

    open spec fn view(&self) -> JobView {
        JobView {
            dir: self.dir@,
            manifest_path: self.manifest_path@,
            containerfile: self.containerfile@,
            fragments: loader::loaded_views(self.fragments@),
            mounts: self.mounts,
        }
    }
}

/// Where a staged output keeps its fragments.
pub open spec fn fragments_dir(staging: Seq<char>) -> Seq<char> {
    path::path_join(staging, "fragments"@)
}

/// Where a staged output keeps one fragment.
pub open spec fn fragment_dir(staging: Seq<char>, name: Seq<char>) -> Seq<char> {
    path::path_join(fragments_dir(staging), name)
}

/// Where the old output waits while the new one takes its place: beside the
/// staging directory.
pub open spec fn aside_of(staging: Seq<char>) -> Seq<char> {
    staging + "-replaced"@
}

/// The steps before any fragment is materialized.
pub open spec fn opening_steps(job: JobView, staging: Seq<char>) -> Seq<StepView> {
    seq![
        StepView {
            action: ActionView::WriteFile {
                path: path::path_join(staging, "Containerfile"@),
                contents: job.containerfile,
            },
            context: "writing staged Containerfile"@,
        },
        StepView {
            action: ActionView::CopyFile {
                from: job.manifest_path,
                to: path::path_join(staging, "manifest.yaml"@),
            },
            context: "copying manifest "@ + job.manifest_path + " into staged output"@,
        },
        StepView {
            action: ActionView::WriteFile {
                path: path::path_join(staging, SENTINEL_FILENAME@),
                contents: "osfragment-assemble v0.1.0\n"@,
            },
            context: "writing sentinel marker"@,
        },
        StepView {
            action: ActionView::CreateDirs { path: fragments_dir(staging) },
            context: "creating "@ + fragments_dir(staging),
        },
    ]
}

/// The steps that materialize one fragment. When mount material is written it
/// is restricted to its owner right away.
pub open spec fn fragment_steps(
    fragment: LoadedView,
    staging: Seq<char>,
    mounts: MountMaterialization,
) -> Seq<StepView> {
    let name = fragment.fragment.name;
    let dest = fragment_dir(staging, name);
    let materialize = StepView {
        action: ActionView::Materialize { image_ref: fragment.source, dest },
        context: "materializing fragment '"@ + name + "'"@,
    };
    let restrict = StepView {
        action: ActionView::RestrictMounts { fragment_dir: dest },
        context: "restricting mount material for fragment '"@ + name + "'"@,
    };
    if mounts == MountMaterialization::Write {
        seq![materialize, restrict]
    } else {
        seq![materialize]
    }
}

/// The steps that materialize a list of fragments, in order.
pub open spec fn payload_steps(
    fragments: Seq<LoadedView>,
    staging: Seq<char>,
    mounts: MountMaterialization,
) -> Seq<StepView>
    decreases fragments.len(),
{
    if fragments.len() == 0 {
        Seq::empty()
    } else {
        payload_steps(fragments.drop_last(), staging, mounts) + fragment_steps(
            fragments.last(),
            staging,
            mounts,
        )
    }
}

/// The output holds mount material.
pub open spec fn holds_mounts(job: JobView) -> bool {
    job.mounts == MountMaterialization::Write && self_contained::carries_mounts(job.fragments)
}

/// The step that writes the ignore file.
pub open spec fn ignore_step(staging: Seq<char>) -> StepView {
    StepView {
        action: ActionView::WriteFile {
            path: path::path_join(staging, GITIGNORE_FILENAME@),
            contents: self_contained::gitignore_text(),
        },
        context: "writing the mount material .gitignore"@,
    }
}

/// The step that makes the staged output normally readable.
pub open spec fn mode_step(staging: Seq<char>) -> StepView {
    StepView {
        action: ActionView::SetMode { path: staging, mode: OUTPUT_DIR_MODE },
        context: "normalizing permissions on "@ + staging,
    }
}

/// The steps after all fragments are materialized. The ignore file is written
/// only when the context actually holds mount material: announcing credential
/// material in a context that has none would be a lie, and it would make an
/// ordinary context look uncommittable.
pub open spec fn closing_steps(job: JobView, staging: Seq<char>) -> Seq<StepView> {
    if holds_mounts(job) {
        seq![ignore_step(staging), mode_step(staging)]
    } else {
        seq![mode_step(staging)]
    }
}

/// Everything that is done to the staging directory, in order.
pub open spec fn staging_plan(job: JobView, staging: Seq<char>) -> Seq<StepView> {
    opening_steps(job, staging) + payload_steps(job.fragments, staging, job.mounts)
        + closing_steps(job, staging)
}

/// How far an output has come.
#[derive(Debug, Clone)]
pub enum OutputPhase {
    /// The target is being looked at.
    Checking,
    /// The directory that holds the target is being created.
    CreatingParent,
    /// The staging directory is being created.
    Staging,
    /// The given step of the staging plan is under way.
    Filling { staging: String, next: usize },
    /// Everything is staged, and the target is being looked at again: the
    /// first look was before minutes of registry traffic, and the target may
    /// have changed since.
    Rechecking { staging: String },
    /// The old output is being moved aside.
    SettingAside { staging: String },
    /// The staged output is being moved to the target, which an old output
    /// was moved away from if `replaces` is set.
    Publishing { staging: String, replaces: bool },
    /// The staged output could not be moved to the target, and the old output
    /// is being moved back there.
    Restoring { staging: String, message: String },
    /// The output is in place, and the old one is being removed.
    Clearing { staging: String },
    /// The output is being given up, and the staging directory removed.
    Discarding { staging: String, message: String },
    /// The output is in place. The notice says what is left of the old one, if
    /// it could not be removed.
    Finished { notice: Option<String> },
    /// The output was given up.
    Stopped { message: String },
}

/// What an [`OutputPhase`] says.
pub enum PhaseView {
    Checking,
    CreatingParent,
    Staging,
    Filling { staging: Seq<char>, next: int },
    Rechecking { staging: Seq<char> },
    SettingAside { staging: Seq<char> },
    Publishing { staging: Seq<char>, replaces: bool },
    Restoring { staging: Seq<char>, message: Seq<char> },
    Clearing { staging: Seq<char> },
    Discarding { staging: Seq<char>, message: Seq<char> },
    Finished { notice: Option<Seq<char>> },
    Stopped { message: Seq<char> },
}

impl View for OutputPhase {
    type V = PhaseView;

    open spec fn view(&self) -> PhaseView {
        match self {
            OutputPhase::Checking => PhaseView::Checking,
            OutputPhase::CreatingParent => PhaseView::CreatingParent,
            OutputPhase::Staging => PhaseView::Staging,
            OutputPhase::Filling { staging, next } => PhaseView::Filling {
                staging: staging@,
                next: *next as int,
            },
            OutputPhase::Rechecking { staging } => PhaseView::Rechecking { staging: staging@ },
            OutputPhase::SettingAside { staging } => PhaseView::SettingAside {
                staging: staging@,
            },
            OutputPhase::Publishing { staging, replaces } => PhaseView::Publishing {
                staging: staging@,
                replaces: *replaces,
            },
            OutputPhase::Restoring { staging, message } => PhaseView::Restoring {
                staging: staging@,
                message: message@,
            },
            OutputPhase::Clearing { staging } => PhaseView::Clearing { staging: staging@ },
            OutputPhase::Discarding { staging, message } => PhaseView::Discarding {
                staging: staging@,
                message: message@,
            },
            OutputPhase::Finished { notice } => PhaseView::Finished {
                notice: text::opt_text(*notice),
            },
            OutputPhase::Stopped { message } => PhaseView::Stopped { message: message@ },
        }
    }
}

/// What is under way in a phase, and what stands before the message of its
/// failure; nothing once the output is in place or given up.
pub open spec fn current_step(job: JobView, phase: PhaseView) -> Option<StepView> {
    let parent = self_contained::containing_dir(job.dir);
    match phase {
        PhaseView::Checking | PhaseView::Rechecking { .. } => Some(
            StepView {
                action: ActionView::ProbeTarget { dir: job.dir },
                context: "reading "@ + job.dir,
            },
        ),
        PhaseView::CreatingParent => Some(
            StepView {
                action: ActionView::CreateDirs { path: parent },
                context: "creating "@ + parent,
            },
        ),
        PhaseView::Staging => Some(
            StepView {
                action: ActionView::CreateStaging { parent },
                context: "creating staging directory for self-contained output"@,
            },
        ),
        PhaseView::Filling { staging, next } => Some(staging_plan(job, staging)[next]),
        PhaseView::SettingAside { staging } => Some(
            StepView {
                action: ActionView::SetAside { dir: job.dir, aside: aside_of(staging) },
                context: "removing existing "@ + job.dir,
            },
        ),
        PhaseView::Publishing { staging, .. } => Some(
            StepView {
                action: ActionView::Publish { staging, dir: job.dir },
                context: "moving staged output "@ + staging + " into "@ + job.dir
                    + "; the generated output is complete and left at the staging path"@,
            },
        ),
        PhaseView::Restoring { staging, .. } => Some(
            StepView {
                action: ActionView::Restore { aside: aside_of(staging), dir: job.dir },
                context: "moving the previous output back from "@ + aside_of(staging),
            },
        ),
        PhaseView::Clearing { staging } => Some(
            StepView {
                action: ActionView::RemoveDir { path: aside_of(staging) },
                context: "removing the replaced output "@ + aside_of(staging)
                    + "; the new output is in place at "@ + job.dir,
            },
        ),
        PhaseView::Discarding { staging, .. } => Some(
            StepView {
                action: ActionView::Discard { staging },
                context: "removing staging directory "@ + staging,
            },
        ),
        PhaseView::Finished { .. } => None,
        PhaseView::Stopped { .. } => None,
    }
}

/// The phase after the action of a phase succeeded, given how it went; `None`
/// where the event is no answer to the action.
pub open spec fn after_success(
    job: JobView,
    phase: PhaseView,
    event: OutputEvent,
) -> Option<PhaseView> {
    match (phase, event) {
        (PhaseView::Checking, OutputEvent::Probed(probe)) => Some(
            match self_contained::refused_target(job.dir, probe) {
                Some(message) => PhaseView::Stopped { message },
                None => PhaseView::CreatingParent,
            },
        ),
        (PhaseView::CreatingParent, OutputEvent::Done) => Some(PhaseView::Staging),
        (PhaseView::Staging, OutputEvent::Staged(staging)) => Some(
            PhaseView::Filling { staging: staging@, next: 0 },
        ),
        (PhaseView::Filling { staging, next }, OutputEvent::Done) => Some(
            if next + 1 < staging_plan(job, staging).len() {
                PhaseView::Filling { staging, next: next + 1 }
            } else {
                PhaseView::Rechecking { staging }
            },
        ),
        (PhaseView::Rechecking { staging }, OutputEvent::Probed(probe)) => Some(
            match self_contained::refused_target(job.dir, probe) {
                Some(message) => PhaseView::Discarding { staging, message },
                None => if probe.state is Absent {
                    PhaseView::Publishing { staging, replaces: false }
                } else {
                    PhaseView::SettingAside { staging }
                },
            },
        ),
        (PhaseView::SettingAside { staging }, OutputEvent::Done) => Some(
            PhaseView::Publishing { staging, replaces: true },
        ),
        (PhaseView::Publishing { staging, replaces }, OutputEvent::Done) => Some(
            if replaces {
                PhaseView::Clearing { staging }
            } else {
                PhaseView::Finished { notice: None }
            },
        ),
        (PhaseView::Restoring { message, .. }, OutputEvent::Done) => Some(
            PhaseView::Stopped { message },
        ),
        (PhaseView::Clearing { .. }, OutputEvent::Done) => Some(
            PhaseView::Finished { notice: None },
        ),
        (PhaseView::Discarding { message, .. }, OutputEvent::Done) => Some(
            PhaseView::Stopped { message },
        ),
        _ => None,
    }
}

/// The phase after the action of a phase failed, given what is said of that.
/// A staging directory that will not be published is discarded, and an old
/// output that was set aside is moved back. Once the new output is in place, an
/// old one that cannot be removed is no failure of the output: it is noted. A
/// staging directory that cannot be removed changes nothing about why the
/// output was given up.
pub open spec fn after_failure(phase: PhaseView, message: Seq<char>) -> PhaseView {
    match phase {
        PhaseView::Filling { staging, .. } => PhaseView::Discarding { staging, message },
        PhaseView::Rechecking { staging } => PhaseView::Discarding { staging, message },
        PhaseView::SettingAside { staging } => PhaseView::Discarding { staging, message },
        PhaseView::Publishing { staging, replaces: true } => PhaseView::Restoring {
            staging,
            message,
        },
        PhaseView::Restoring { message: cause, .. } => PhaseView::Stopped {
            message: cause + "; "@ + message,
        },
        PhaseView::Clearing { .. } => PhaseView::Finished { notice: Some(message) },
        PhaseView::Discarding { message: cause, .. } => PhaseView::Stopped { message: cause },
        _ => PhaseView::Stopped { message },
    }
}

/// The phase after an event.
pub open spec fn advanced(job: JobView, phase: PhaseView, event: OutputEvent) -> PhaseView {
    match current_step(job, phase) {
        None => phase,
        Some(step) => match event {
            OutputEvent::Failed(e) => after_failure(phase, step.context + ": "@ + e@),
            _ => match after_success(job, phase, event) {
                Some(next) => next,
                None => after_failure(phase, step.context + ": unexpected answer"@),
            },
        },
    }
}

/// The phase after a run of events.
pub open spec fn phase_after(job: JobView, events: Seq<OutputEvent>) -> PhaseView
    decreases events.len(),
{
    if events.len() == 0 {
        PhaseView::Checking
    } else {
        advanced(job, phase_after(job, events.drop_last()), events.last())
    }
}

/// A step of the staging plan is only ever under way while there is one.
pub open spec fn sound_phase(job: JobView, phase: PhaseView) -> bool {
    match phase {
        PhaseView::Filling { staging, next } => 0 <= next < staging_plan(job, staging).len(),
        _ => true,
    }
}

/// The steps before any fragment is materialized.
fn plan_opening(job: &OutputJob, staging: &str) -> (steps: Vec<OutputStep>)
    ensures
        step_views(steps@) == opening_steps(job@, staging@),
{
    let fragments = join_path(staging, "fragments");
    let mut copying = "copying manifest ".to_owned();
    copying.append(job.manifest_path);
    copying.append(" into staged output");
    let mut creating = "creating ".to_owned();
    creating.append(fragments.as_str());
    let steps = vec![
        OutputStep {
            action: OutputAction::WriteFile {
                path: join_path(staging, "Containerfile"),
                contents: job.containerfile.to_owned(),
            },
            context: "writing staged Containerfile".to_owned(),
        },
        OutputStep {
            action: OutputAction::CopyFile {
                from: job.manifest_path.to_owned(),
                to: join_path(staging, "manifest.yaml"),
            },
            context: copying,
        },
        OutputStep {
            action: OutputAction::WriteFile {
                path: join_path(staging, SENTINEL_FILENAME),
                contents: sentinel_contents(),
            },
            context: "writing sentinel marker".to_owned(),
        },
        OutputStep {
            action: OutputAction::CreateDirs { path: fragments },
            context: creating,
        },
    ];
    assert(step_views(steps@) =~= opening_steps(job@, staging@));
    steps
}

/// The steps that materialize one fragment.
fn plan_fragment(
    fragment: &LoadedFragment,
    staging: &str,
    mounts: MountMaterialization,
) -> (steps: Vec<OutputStep>)
    ensures
        step_views(steps@) == fragment_steps(fragment@, staging@, mounts),
{
    let name = fragment.fragment.name.as_str();
    let dest = join_path(join_path(staging, "fragments").as_str(), name);
    let image_ref = match &fragment.source {
        FragmentSource::Registry { image_ref } => image_ref.clone(),
    };
    let mut materializing = "materializing fragment '".to_owned();
    materializing.append(name);
    materializing.append("'");
    let mut steps: Vec<OutputStep> = Vec::new();
    steps.push(
        OutputStep {
            action: OutputAction::Materialize { image_ref, dest: dest.clone() },
            context: materializing,
        },
    );
    if mounts == MountMaterialization::Write {
        let mut restricting = "restricting mount material for fragment '".to_owned();
        restricting.append(name);
        restricting.append("'");
        steps.push(
            OutputStep {
                action: OutputAction::RestrictMounts { fragment_dir: dest },
                context: restricting,
            },
        );
    }
    assert(step_views(steps@) =~= fragment_steps(fragment@, staging@, mounts));
    steps
}

/// Whether the output holds mount material.
fn job_holds_mounts(job: &OutputJob) -> (r: bool)
    ensures
        r == holds_mounts(job@),
{
    if job.mounts != MountMaterialization::Write {
        return false;
    }
    let ghost views = loader::loaded_views(job.fragments@);
    for i in 0..job.fragments.len()
        invariant
            job.mounts == MountMaterialization::Write,
            views == loader::loaded_views(job.fragments@),
            views == job@.fragments,
            forall|j: int| 0 <= j < i ==> (#[trigger] views[j]).mount_points.len() == 0,
    {
        assert(views[i as int].mount_points.len() == job.fragments@[i as int].mount_points@.len());
        if job.fragments[i].mount_points.len() > 0 {
            return true;
        }
    }
    false
}

/// Everything that is done to the staging directory, in order.
pub fn plan_staging(job: &OutputJob, staging: &str) -> (steps: Vec<OutputStep>)
    ensures
        step_views(steps@) == staging_plan(job@, staging@),
{
    let ghost views = loader::loaded_views(job.fragments@);
    let mut steps = plan_opening(job, staging);
    let ghost opening = step_views(steps@);
    assert(opening + payload_steps(views.take(0), staging@, job.mounts) =~= opening);
    for i in 0..job.fragments.len()
        invariant
            views == loader::loaded_views(job.fragments@),
            step_views(steps@) == opening + payload_steps(
                views.take(i as int),
                staging@,
                job.mounts,
            ),
    {
        let ghost before = step_views(steps@);
        assert(views.take(i + 1).drop_last() =~= views.take(i as int));
        assert(views.take(i + 1).last() == job.fragments@[i as int]@);
        let mut more = plan_fragment(&job.fragments[i], staging, job.mounts);
        let ghost added = step_views(more@);
        steps.append(&mut more);
        assert(step_views(steps@) =~= before + added);
        assert(step_views(steps@) =~= opening + payload_steps(
            views.take(i + 1),
            staging@,
            job.mounts,
        ));
    }
    assert(views.take(views.len() as int) =~= views);
    let ghost filled = step_views(steps@);
    if job_holds_mounts(job) {
        steps.push(
            OutputStep {
                action: OutputAction::WriteFile {
                    path: join_path(staging, GITIGNORE_FILENAME),
                    contents: mount_gitignore_contents().to_owned(),
                },
                context: "writing the mount material .gitignore".to_owned(),
            },
        );
    }
    let mut normalizing = "normalizing permissions on ".to_owned();
    normalizing.append(staging);
    steps.push(
        OutputStep {
            action: OutputAction::SetMode { path: staging.to_owned(), mode: OUTPUT_DIR_MODE },
            context: normalizing,
        },
    );
    assert(step_views(steps@) =~= filled + closing_steps(job@, staging@));
    steps
}

/// What is under way in a phase.
pub fn next_step(job: &OutputJob, phase: &OutputPhase) -> (r: Option<OutputStep>)
    requires
        sound_phase(job@, phase@),
    ensures
        match r {
            Some(step) => Some(step@),
            None => None,
        } == current_step(job@, phase@),
{
    match phase {
        OutputPhase::Checking | OutputPhase::Rechecking { .. } => {
            let mut context = "reading ".to_owned();
            context.append(job.dir);
            Some(
                OutputStep {
                    action: OutputAction::ProbeTarget { dir: job.dir.to_owned() },
                    context,
                },
            )
        },
        OutputPhase::CreatingParent => {
            let path = containing(job.dir);
            let mut context = "creating ".to_owned();
            context.append(path.as_str());
            Some(OutputStep { action: OutputAction::CreateDirs { path }, context })
        },
        OutputPhase::Staging => Some(
            OutputStep {
                action: OutputAction::CreateStaging { parent: containing(job.dir) },
                context: "creating staging directory for self-contained output".to_owned(),
            },
        ),
        OutputPhase::Filling { staging, next } => {
            let mut steps = plan_staging(job, staging.as_str());
            assert(step_views(steps@)[*next as int] == steps@[*next as int]@);
            Some(steps.swap_remove(*next))
        },
        OutputPhase::SettingAside { staging } => {
            let mut context = "removing existing ".to_owned();
            context.append(job.dir);
            Some(
                OutputStep {
                    action: OutputAction::SetAside {
                        dir: job.dir.to_owned(),
                        aside: aside_path(staging.as_str()),
                    },
                    context,
                },
            )
        },
        OutputPhase::Publishing { staging, .. } => {
            let mut context = "moving staged output ".to_owned();
            context.append(staging.as_str());
            context.append(" into ");
            context.append(job.dir);
            context.append("; the generated output is complete and left at the staging path");
            Some(
                OutputStep {
                    action: OutputAction::Publish {
                        staging: staging.clone(),
                        dir: job.dir.to_owned(),
                    },
                    context,
                },
            )
        },
        OutputPhase::Restoring { staging, .. } => {
            let aside = aside_path(staging.as_str());
            let mut context = "moving the previous output back from ".to_owned();
            context.append(aside.as_str());
            Some(
                OutputStep {
                    action: OutputAction::Restore { aside, dir: job.dir.to_owned() },
                    context,
                },
            )
        },
        OutputPhase::Clearing { staging } => {
            let path = aside_path(staging.as_str());
            let mut context = "removing the replaced output ".to_owned();
            context.append(path.as_str());
            context.append("; the new output is in place at ");
            context.append(job.dir);
            Some(OutputStep { action: OutputAction::RemoveDir { path }, context })
        },
        OutputPhase::Discarding { staging, .. } => {
            let mut context = "removing staging directory ".to_owned();
            context.append(staging.as_str());
            Some(
                OutputStep { action: OutputAction::Discard { staging: staging.clone() }, context },
            )
        },
        OutputPhase::Finished { .. } => None,
        OutputPhase::Stopped { .. } => None,
    }
}

/// Where the old output waits while the new one takes its place.
fn aside_path(staging: &str) -> (out: String)
    ensures
        out@ == aside_of(staging@),
{
    let mut out = staging.to_owned();
    out.append("-replaced");
    out
}

/// The phase after the action of a phase failed.
fn fail(phase: &OutputPhase, message: String) -> (next: OutputPhase)
    ensures
        next@ == after_failure(phase@, message@),
{
    match phase {
        OutputPhase::Filling { staging, .. } => OutputPhase::Discarding {
            staging: staging.clone(),
            message,
        },
        OutputPhase::Rechecking { staging } => OutputPhase::Discarding {
            staging: staging.clone(),
            message,
        },
        OutputPhase::SettingAside { staging } => OutputPhase::Discarding {
            staging: staging.clone(),
            message,
        },
        OutputPhase::Publishing { staging, replaces: true } => OutputPhase::Restoring {
            staging: staging.clone(),
            message,
        },
        OutputPhase::Restoring { message: cause, .. } => {
            let mut both = cause.clone();
            both.append("; ");
            both.append(message.as_str());
            OutputPhase::Stopped { message: both }
        },
        OutputPhase::Clearing { .. } => OutputPhase::Finished { notice: Some(message) },
        OutputPhase::Discarding { message: cause, .. } => OutputPhase::Stopped {
            message: cause.clone(),
        },
        _ => OutputPhase::Stopped { message },
    }
}

/// The phase after the action of a phase succeeded.
fn succeed(job: &OutputJob, phase: &OutputPhase, event: &OutputEvent) -> (r: Option<OutputPhase>)
    requires
        sound_phase(job@, phase@),
    ensures
        match r {
            Some(next) => Some(next@),
            None => None,
        } == after_success(job@, phase@, *event),
        r matches Some(next) ==> sound_phase(job@, next@),
{
    match (phase, event) {
        (OutputPhase::Checking, OutputEvent::Probed(probe)) => match check_target(job.dir, probe) {
            Err(message) => Some(OutputPhase::Stopped { message }),
            Ok(_) => Some(OutputPhase::CreatingParent),
        },
        (OutputPhase::CreatingParent, OutputEvent::Done) => Some(OutputPhase::Staging),
        (OutputPhase::Staging, OutputEvent::Staged(staging)) => Some(
            OutputPhase::Filling { staging: staging.clone(), next: 0 },
        ),
        (OutputPhase::Filling { staging, next }, OutputEvent::Done) => {
            let count = plan_staging(job, staging.as_str()).len();
            assert(count == staging_plan(job@, staging@).len());
            if *next + 1 < count {
                Some(OutputPhase::Filling { staging: staging.clone(), next: *next + 1 })
            } else {
                Some(OutputPhase::Rechecking { staging: staging.clone() })
            }
        },
        (OutputPhase::Rechecking { staging }, OutputEvent::Probed(probe)) => match check_target(
            job.dir,
            probe,
        ) {
            Err(message) => Some(OutputPhase::Discarding { staging: staging.clone(), message }),
            Ok(_) => match &probe.state {
                TargetState::Absent => Some(
                    OutputPhase::Publishing { staging: staging.clone(), replaces: false },
                ),
                _ => Some(OutputPhase::SettingAside { staging: staging.clone() }),
            },
        },
        (OutputPhase::SettingAside { staging }, OutputEvent::Done) => Some(
            OutputPhase::Publishing { staging: staging.clone(), replaces: true },
        ),
        (OutputPhase::Publishing { staging, replaces }, OutputEvent::Done) => if *replaces {
            Some(OutputPhase::Clearing { staging: staging.clone() })
        } else {
            Some(OutputPhase::Finished { notice: None })
        },
        (OutputPhase::Restoring { message, .. }, OutputEvent::Done) => Some(
            OutputPhase::Stopped { message: message.clone() },
        ),
        (OutputPhase::Clearing { .. }, OutputEvent::Done) => Some(
            OutputPhase::Finished { notice: None },
        ),
        (OutputPhase::Discarding { message, .. }, OutputEvent::Done) => Some(
            OutputPhase::Stopped { message: message.clone() },
        ),
        _ => None,
    }
}

/// The phase after an event.
pub fn advance(job: &OutputJob, phase: OutputPhase, event: &OutputEvent) -> (next: OutputPhase)
    requires
        sound_phase(job@, phase@),
    ensures
        next@ == advanced(job@, phase@, *event),
        sound_phase(job@, next@),
{
    match next_step(job, &phase) {
        None => phase,
        Some(step) => {
            let mut message = step.context;
            match event {
                OutputEvent::Failed(e) => {
                    message.append(": ");
                    message.append(e.as_str());
                    fail(&phase, message)
                },
                _ => match succeed(job, &phase, event) {
                    Some(next) => next,
                    None => {
                        message.append(": unexpected answer");
                        fail(&phase, message)
                    },
                },
            }
        },
    }
}

/// How many actions are still to come, at most.
pub open spec fn remaining(job: JobView, phase: PhaseView) -> int {
    let count = staging_plan(job, Seq::empty()).len() as int;
    match phase {
        PhaseView::Checking => count + 7,
        PhaseView::CreatingParent => count + 6,
        PhaseView::Staging => count + 5,
        PhaseView::Filling { next, .. } => count - next + 4,
        PhaseView::Rechecking { .. } => 4,
        PhaseView::SettingAside { .. } => 3,
        PhaseView::Publishing { .. } => 2,
        PhaseView::Restoring { .. } => 1,
        PhaseView::Clearing { .. } => 1,
        PhaseView::Discarding { .. } => 1,
        PhaseView::Finished { .. } => 0,
        PhaseView::Stopped { .. } => 0,
    }
}

/// How many steps materialize a list of fragments does not depend on where
/// the staging directory is.
proof fn lemma_payload_len(
    fragments: Seq<LoadedView>,
    a: Seq<char>,
    b: Seq<char>,
    mounts: MountMaterialization,
)
    ensures
        payload_steps(fragments, a, mounts).len() == payload_steps(fragments, b, mounts).len(),
    decreases fragments.len(),
{
    if fragments.len() > 0 {
        lemma_payload_len(fragments.drop_last(), a, b, mounts);
    }
}

/// Every event brings a sound phase nearer to its end.
proof fn lemma_progress(job: JobView, phase: PhaseView, event: OutputEvent)
    requires
        sound_phase(job, phase),
        current_step(job, phase) is Some,
    ensures
        0 <= remaining(job, advanced(job, phase, event)) < remaining(job, phase),
        sound_phase(job, advanced(job, phase, event)),
{
    if let PhaseView::Filling { staging, next } = phase {
        lemma_payload_len(job.fragments, staging, Seq::empty(), job.mounts);
    }
    if let (PhaseView::Staging, OutputEvent::Staged(staging)) = (phase, event) {
        lemma_payload_len(job.fragments, staging@, Seq::empty(), job.mounts);
    }
}

/// The event at place `i` of a run is what `perform` may answer to the action
/// that is then under way.
pub open spec fn event_answered<F: Fn(&OutputAction) -> OutputEvent>(
    perform: F,
    job: JobView,
    events: Seq<OutputEvent>,
    i: int,
) -> bool {
    exists|action: &OutputAction|
        {
            &&& current_step(job, phase_after(job, events.take(i))) matches Some(step)
            &&& step.action == action@
            &&& #[trigger] call_ensures(perform, (action,), events[i])
        }
}

/// The events of a run are what `perform` may answer, one after the other, to
/// the actions that are under way.
pub open spec fn run_answered<F: Fn(&OutputAction) -> OutputEvent>(
    perform: F,
    job: JobView,
    events: Seq<OutputEvent>,
) -> bool {
    forall|i: int| 0 <= i < events.len() ==> #[trigger] event_answered(perform, job, events, i)
}

/// The action is under way after the given events.
pub open spec fn asks_for(job: JobView, events: Seq<OutputEvent>, action: ActionView) -> bool {
    current_step(job, phase_after(job, events)) matches Some(step) && step.action == action
}

/// A run goes on with one more answered event.
proof fn lemma_run_goes_on<F: Fn(&OutputAction) -> OutputEvent>(
    perform: F,
    job: JobView,
    events: Seq<OutputEvent>,
    action: &OutputAction,
    event: OutputEvent,
)
    requires
        run_answered(perform, job, events),
        current_step(job, phase_after(job, events)) matches Some(step) && step.action == action@,
        call_ensures(perform, (action,), event),
    ensures
        run_answered(perform, job, events.push(event)),
        phase_after(job, events.push(event)) == advanced(job, phase_after(job, events), event),
{
    let all = events.push(event);
    assert(all.drop_last() =~= events);
    assert forall|i: int| 0 <= i < all.len() implies #[trigger] event_answered(
        perform,
        job,
        all,
        i,
    ) by {
        if i < events.len() {
            assert(event_answered(perform, job, events, i));
            assert(all.take(i) =~= events.take(i));
            assert(all[i] == events[i]);
        } else {
            assert(all.take(i) =~= events);
        }
    }
}

/// Write the self-contained output: fragment payload, the generated
/// Containerfile, and a copy of the input manifest. `perform` performs one
/// action and says how it went.
///
/// The staging directory is discarded on every failure up to and including
/// the removal of an existing output, leaving the target untouched: the
/// existing output is moved aside as a whole, and is deleted only once the
/// new one is in place. A failing move of the staged output leaves it
/// complete at the staging path and says so in its error rather than
/// discarding minutes of registry work, and the existing output is moved
/// back. The output succeeds once it is in place: where what it replaced
/// cannot be deleted, the result carries a notice that says so.
///
/// `perform` is called for nothing but the action that is under way after the
/// answers it gave before.
pub fn write_output<F: Fn(&OutputAction) -> OutputEvent>(job: &OutputJob, perform: F) -> (r:
    Result<Option<String>, String>)
    requires
        forall|events: Seq<OutputEvent>, action: &OutputAction|
            #![trigger run_answered(perform, job@, events), call_requires(perform, (action,))]
            run_answered(perform, job@, events) && asks_for(job@, events, action@)
                ==> call_requires(perform, (action,)),
    ensures
        exists|events: Seq<OutputEvent>|
            {
                &&& #[trigger] run_answered(perform, job@, events)
                &&& phase_after(job@, events) == match r {
                    Ok(notice) => PhaseView::Finished { notice: text::opt_text(notice) },
                    Err(e) => PhaseView::Stopped { message: e@ },
                }
            },
{
    let mut phase = OutputPhase::Checking;
    let ghost mut events: Seq<OutputEvent> = Seq::empty();
    loop
        invariant
            forall|events: Seq<OutputEvent>, action: &OutputAction|
                #![trigger run_answered(perform, job@, events), call_requires(perform, (action,))]
                run_answered(perform, job@, events) && asks_for(job@, events, action@)
                    ==> call_requires(perform, (action,)),
            sound_phase(job@, phase@),
            phase@ == phase_after(job@, events),
            run_answered(perform, job@, events),
        decreases remaining(job@, phase@),
    {
        let step = match next_step(job, &phase) {
            Some(step) => step,
            None => {
                let r = match phase {
                    OutputPhase::Stopped { message } => Err(message),
                    OutputPhase::Finished { notice } => Ok(notice),
                    _ => Ok(None),
                };
                return r;
            },
        };
        let event = perform(&step.action);
        proof {
            lemma_run_goes_on(perform, job@, events, &step.action, event);
            lemma_progress(job@, phase@, event);
            events = events.push(event);
        }
        phase = advance(job, phase, &event);
    }
}

/// An event that says that the target may be written to.
pub open spec fn accepted(job: JobView, event: OutputEvent) -> bool {
    event matches OutputEvent::Probed(probe) && self_contained::refused_target(job.dir, probe)
        is None
}

/// The staging directory that a run works in.
pub open spec fn staging_of(events: Seq<OutputEvent>) -> Seq<char> {
    match events[2] {
        OutputEvent::Staged(staging) => staging@,
        _ => Seq::empty(),
    }
}

/// The run came as far as to have done the first `count` steps of the staging
/// plan: the target was found safe, a staging directory was created, and each
/// of those steps succeeded.
pub open spec fn staged(job: JobView, events: Seq<OutputEvent>, count: int) -> bool {
    &&& events.len() >= 3 + count
    &&& accepted(job, events[0])
    &&& events[1] is Done
    &&& events[2] is Staged
    &&& forall|k: int| 3 <= k < 3 + count ==> (#[trigger] events[k]) is Done
}

/// Everything is staged, and the target was then found safe once more.
pub open spec fn all_staged(job: JobView, events: Seq<OutputEvent>) -> bool {
    let count = staging_plan(job, staging_of(events)).len() as int;
    &&& staged(job, events, count)
    &&& events.len() > 3 + count
    &&& accepted(job, events[3 + count])
}

/// What a phase tells about the run that led to it.
#[verifier::spinoff_prover]
#[verifier::rlimit(40)]
proof fn lemma_trail(job: JobView, events: Seq<OutputEvent>)
    ensures
        match phase_after(job, events) {
            PhaseView::Checking => events.len() == 0,
            PhaseView::CreatingParent => events.len() == 1 && accepted(job, events[0]),
            PhaseView::Staging => events.len() == 2 && accepted(job, events[0])
                && events[1] is Done,
            PhaseView::Filling { staging, next } => {
                &&& events.len() == 3 + next
                &&& 0 <= next < staging_plan(job, staging).len()
                &&& staged(job, events, next)
                &&& staging == staging_of(events)
            },
            PhaseView::Rechecking { staging } => {
                &&& events.len() == 3 + staging_plan(job, staging).len()
                &&& staged(job, events, staging_plan(job, staging).len() as int)
                &&& staging == staging_of(events)
            },
            PhaseView::SettingAside { staging } => {
                &&& all_staged(job, events)
                &&& staging == staging_of(events)
            },
            PhaseView::Publishing { staging, .. } => {
                &&& all_staged(job, events)
                &&& staging == staging_of(events)
            },
            PhaseView::Restoring { staging, .. } => {
                &&& all_staged(job, events)
                &&& staging == staging_of(events)
            },
            PhaseView::Clearing { staging } => {
                &&& all_staged(job, events)
                &&& staging == staging_of(events)
            },
            PhaseView::Discarding { staging, .. } => events.len() > 3 && events[2] is Staged
                && staging == staging_of(events),
            PhaseView::Finished { .. } => all_staged(job, events),
            PhaseView::Stopped { .. } => true,
        },
    decreases events.len(),
{
    if events.len() > 0 {
        let before = events.drop_last();
        lemma_trail(job, before);
        assert forall|k: int| 0 <= k < before.len() implies #[trigger] events[k] == before[k] by {}
        if before.len() >= 3 {
            assert(events[2] == before[2]);
        }
        match phase_after(job, before) {
            PhaseView::Filling { staging, next } => {
                assert(events[0] == before[0] && events[1] == before[1]);
                assert forall|k: int| 3 <= k < 3 + next implies (#[trigger] events[k]) is Done by {
                    assert(events[k] == before[k]);
                }
            },
            PhaseView::Rechecking { staging } => {
                let count = staging_plan(job, staging).len() as int;
                assert(events[0] == before[0] && events[1] == before[1]);
                assert forall|k: int| 3 <= k < 3 + count implies (#[trigger] events[k])
                    is Done by {
                    assert(events[k] == before[k]);
                }
            },
            PhaseView::SettingAside { .. } | PhaseView::Publishing { .. }
            | PhaseView::Restoring { .. } | PhaseView::Clearing { .. }
            | PhaseView::Finished { .. } => {
                lemma_all_staged_stays(job, before, events.last());
                assert(before.push(events.last()) =~= events);
            },
            _ => {},
        }
    }
}

/// What is staged stays staged.
proof fn lemma_all_staged_stays(job: JobView, events: Seq<OutputEvent>, event: OutputEvent)
    requires
        all_staged(job, events),
    ensures
        all_staged(job, events.push(event)),
        staging_of(events.push(event)) == staging_of(events),
{
    let all = events.push(event);
    let count = staging_plan(job, staging_of(events)).len() as int;
    assert(all[0] == events[0] && all[1] == events[1] && all[2] == events[2]);
    assert(all[3 + count] == events[3 + count]);
    assert forall|k: int| 3 <= k < 3 + count implies (#[trigger] all[k]) is Done by {
        assert(all[k] == events[k]);
    }
}

/// The action touches the target itself.
pub open spec fn replaces_target(action: ActionView) -> bool {
    action is SetAside || action is Publish || action is Restore
}

/// No step that materializes fragments touches the target.
proof fn lemma_payload_is_staged(
    fragments: Seq<LoadedView>,
    staging: Seq<char>,
    mounts: MountMaterialization,
)
    ensures
        forall|k: int|
            0 <= k < payload_steps(fragments, staging, mounts).len() ==> !replaces_target(
                (#[trigger] payload_steps(fragments, staging, mounts)[k]).action,
            ),
    decreases fragments.len(),
{
    if fragments.len() > 0 {
        let front = payload_steps(fragments.drop_last(), staging, mounts);
        let all = payload_steps(fragments, staging, mounts);
        lemma_payload_is_staged(fragments.drop_last(), staging, mounts);
        assert forall|k: int| 0 <= k < all.len() implies !replaces_target(
            (#[trigger] all[k]).action,
        ) by {
            if k < front.len() {
                assert(all[k] == front[k]);
            } else {
                assert(all[k] == fragment_steps(fragments.last(), staging, mounts)[k
                    - front.len()]);
            }
        }
    }
}

/// No step of the staging plan touches the target.
proof fn lemma_plan_is_staged(job: JobView, staging: Seq<char>, k: int)
    requires
        0 <= k < staging_plan(job, staging).len(),
    ensures
        !replaces_target(staging_plan(job, staging)[k].action),
{
    let opening = opening_steps(job, staging);
    let payload = payload_steps(job.fragments, staging, job.mounts);
    lemma_payload_is_staged(job.fragments, staging, job.mounts);
    if k < opening.len() {
        assert(staging_plan(job, staging)[k] == opening[k]);
    } else if k < opening.len() + payload.len() {
        assert(staging_plan(job, staging)[k] == payload[k - opening.len()]);
    } else {
        assert(staging_plan(job, staging)[k] == closing_steps(job, staging)[k - opening.len()
            - payload.len()]);
    }
}

/// The target is moved or replaced only after every step of the staging plan
/// succeeded and the target was found safe once more.
pub proof fn law_target_is_replaced_last(job: JobView, events: Seq<OutputEvent>)
    ensures
        current_step(job, phase_after(job, events)) matches Some(step) && replaces_target(
            step.action,
        ) ==> all_staged(job, events),
        phase_after(job, events) is Finished ==> all_staged(job, events),
{
    lemma_trail(job, events);
    if let PhaseView::Filling { staging, next } = phase_after(job, events) {
        lemma_plan_is_staged(job, staging, next);
    }
}

/// What has become of what stood at the target.
pub enum TargetFate {
    /// It is where it was.
    Untouched,
    /// It waits where it was moved aside to.
    SetAside,
    /// The new output stands in its place.
    Replaced,
}

/// What becomes of what stood at the target by an action, given how it went:
/// each of the moves happens as a whole when it is done, and not at all
/// otherwise.
pub open spec fn fate_with(
    fate: TargetFate,
    step: Option<StepView>,
    event: OutputEvent,
) -> TargetFate {
    match (step, event) {
        (Some(step), OutputEvent::Done) => match step.action {
            ActionView::SetAside { .. } => TargetFate::SetAside,
            ActionView::Publish { .. } => TargetFate::Replaced,
            ActionView::Restore { .. } => TargetFate::Untouched,
            _ => fate,
        },
        _ => fate,
    }
}

/// What has become of what stood at the target after a run of events.
pub open spec fn target_fate(job: JobView, events: Seq<OutputEvent>) -> TargetFate
    decreases events.len(),
{
    if events.len() == 0 {
        TargetFate::Untouched
    } else {
        let before = events.drop_last();
        fate_with(
            target_fate(job, before),
            current_step(job, phase_after(job, before)),
            events.last(),
        )
    }
}

/// What a phase tells about what stood at the target.
proof fn lemma_fate(job: JobView, events: Seq<OutputEvent>)
    ensures
        match phase_after(job, events) {
            PhaseView::Publishing { replaces: true, .. } => target_fate(job, events)
                == TargetFate::SetAside,
            PhaseView::Restoring { .. } => target_fate(job, events) == TargetFate::SetAside,
            PhaseView::Clearing { .. } => target_fate(job, events) == TargetFate::Replaced,
            PhaseView::Finished { .. } => target_fate(job, events) == TargetFate::Replaced,
            PhaseView::Stopped { .. } => true,
            _ => target_fate(job, events) == TargetFate::Untouched,
        },
    decreases events.len(),
{
    if events.len() > 0 {
        let before = events.drop_last();
        lemma_fate(job, before);
        if let PhaseView::Filling { staging, next } = phase_after(job, before) {
            lemma_trail(job, before);
            lemma_plan_is_staged(job, staging, next);
        }
    }
}

/// A run that gives the output up leaves what stood at the target where it
/// was, unless moving it back failed too. Where a staging directory was
/// created and not published, the last thing the run does is to discard it,
/// unless publishing it is what failed.
pub proof fn law_failure_leaves_the_target(job: JobView, events: Seq<OutputEvent>)
    requires
        events.len() > 0,
        current_step(job, phase_after(job, events.drop_last())) is Some,
        phase_after(job, events) is Stopped,
    ensures
        match phase_after(job, events.drop_last()) {
            PhaseView::Checking | PhaseView::CreatingParent | PhaseView::Staging
            | PhaseView::Discarding { .. } | PhaseView::Publishing { replaces: false, .. } => {
                target_fate(job, events) == TargetFate::Untouched
            },
            PhaseView::Restoring { .. } => target_fate(job, events) == if events.last() is Done {
                TargetFate::Untouched
            } else {
                TargetFate::SetAside
            },
            _ => false,
        },
{
    lemma_fate(job, events.drop_last());
}

/// Once the new output is in place the run succeeds, whether or not the old
/// one can be removed; only a failure to remove it is noted.
pub proof fn law_published_output_stands(
    job: JobView,
    events: Seq<OutputEvent>,
    answer: OutputEvent,
)
    requires
        phase_after(job, events) is Clearing,
    ensures
        phase_after(job, events.push(answer)) matches PhaseView::Finished { notice } && (notice
            is None <==> answer is Done),
        target_fate(job, events.push(answer)) == TargetFate::Replaced,
{
    let all = events.push(answer);
    assert(all.drop_last() =~= events);
    lemma_fate(job, events);
    assert(phase_after(job, all) == advanced(job, phase_after(job, events), answer));
}

/// When an existing output cannot be removed, the staging directory is
/// discarded, the run fails with that reason, and the output is untouched.
pub proof fn law_failed_removal_leaves_the_target(
    job: JobView,
    events: Seq<OutputEvent>,
    reason: String,
    answer: OutputEvent,
)
    requires
        phase_after(job, events) is SettingAside,
    ensures
        ({
            let failed = events.push(OutputEvent::Failed(reason));
            &&& asks_for(job, failed, ActionView::Discard { staging: staging_of(events) })
            &&& phase_after(job, failed.push(answer)) == (PhaseView::Stopped {
                message: "removing existing "@ + job.dir + ": "@ + reason@,
            })
            &&& target_fate(job, failed.push(answer)) == TargetFate::Untouched
        }),
{
    let failed = events.push(OutputEvent::Failed(reason));
    assert(failed.drop_last() =~= events);
    assert(failed.push(answer).drop_last() =~= failed);
    lemma_trail(job, events);
    lemma_fate(job, events);
    let staging = staging_of(events);
    let message = "removing existing "@ + job.dir + ": "@ + reason@;
    assert(phase_after(job, events) == PhaseView::SettingAside { staging });
    assert(phase_after(job, failed) == advanced(
        job,
        phase_after(job, events),
        OutputEvent::Failed(reason),
    ));
    assert(phase_after(job, failed) == PhaseView::Discarding { staging, message });
    assert(target_fate(job, failed) == TargetFate::Untouched);
    assert(phase_after(job, failed.push(answer)) == advanced(
        job,
        phase_after(job, failed),
        answer,
    ));
}

/// A run that has done the first steps of the staging plan performs the next
/// one of them: the plan is performed in order, without gaps.
pub proof fn law_staging_follows_the_plan(job: JobView, events: Seq<OutputEvent>, k: int)
    requires
        0 <= k < staging_plan(job, staging_of(events)).len(),
        staged(job, events, k),
    ensures
        current_step(job, phase_after(job, events.take(3 + k))) == Some(
            staging_plan(job, staging_of(events))[k],
        ),
{
    lemma_filling(job, events, k);
}

/// A run that has done the first steps of the staging plan is at the next.
proof fn lemma_filling(job: JobView, events: Seq<OutputEvent>, k: int)
    requires
        0 <= k < staging_plan(job, staging_of(events)).len(),
        staged(job, events, k),
    ensures
        phase_after(job, events.take(3 + k)) == (PhaseView::Filling {
            staging: staging_of(events),
            next: k,
        }),
    decreases k,
{
    let here = events.take(3 + k);
    if k == 0 {
        assert(here.drop_last() =~= events.take(2));
        assert(events.take(2).drop_last() =~= events.take(1));
        assert(events.take(1).drop_last() =~= events.take(0));
        assert(phase_after(job, events.take(0)) == PhaseView::Checking);
        assert(phase_after(job, events.take(1)) == PhaseView::CreatingParent);
        assert(phase_after(job, events.take(2)) == PhaseView::Staging);
    } else {
        lemma_filling(job, events, k - 1);
        assert(here.drop_last() =~= events.take(3 + k - 1));
        assert(events[3 + k - 1] is Done);
    }
}

/// The entries that the staging plan puts into the staging directory.
pub open spec fn written_entries(job: JobView) -> Seq<Seq<char>> {
    let entries = seq!["Containerfile"@, "manifest.yaml"@, SENTINEL_FILENAME@, "fragments"@];
    if holds_mounts(job) {
        entries.push(GITIGNORE_FILENAME@)
    } else {
        entries
    }
}

/// The action writes to the entry of that name in the staging directory, or
/// below it.
pub open spec fn writes_entry(action: ActionView, staging: Seq<char>, entry: Seq<char>) -> bool {
    let place = path::path_join(staging, entry);
    match action {
        ActionView::WriteFile { path, .. } => path == place,
        ActionView::CopyFile { to, .. } => to == place,
        ActionView::CreateDirs { path } => path == place,
        ActionView::Materialize { dest, .. } => path::lies_under(dest, place),
        ActionView::RestrictMounts { fragment_dir } => path::lies_under(fragment_dir, place),
        _ => false,
    }
}

/// The action stays inside the staging directory: it sets the directory's own
/// mode, or it writes to one of the entries that the output consists of.
pub open spec fn stays_staged(job: JobView, staging: Seq<char>, action: ActionView) -> bool {
    ||| action matches ActionView::SetMode { path, .. } && path == staging
    ||| exists|i: int|
        0 <= i < written_entries(job).len() && writes_entry(
            action,
            staging,
            #[trigger] written_entries(job)[i],
        )
}

/// Every fragment goes by a valid name.
pub open spec fn named_fragments(fragments: Seq<LoadedView>) -> bool {
    forall|i: int|
        0 <= i < fragments.len() ==> fragment::valid_fragment_name(
            (#[trigger] fragments[i]).fragment.name,
        )
}

/// Steps that materialize fragments write below `fragments/`.
proof fn lemma_payload_below_fragments(
    fragments: Seq<LoadedView>,
    staging: Seq<char>,
    mounts: MountMaterialization,
)
    requires
        named_fragments(fragments),
    ensures
        forall|k: int|
            0 <= k < payload_steps(fragments, staging, mounts).len() ==> writes_entry(
                (#[trigger] payload_steps(fragments, staging, mounts)[k]).action,
                staging,
                "fragments"@,
            ),
    decreases fragments.len(),
{
    if fragments.len() > 0 {
        let rest = fragments.drop_last();
        let front = payload_steps(rest, staging, mounts);
        let all = payload_steps(fragments, staging, mounts);
        let last = fragments.last();
        assert forall|i: int| 0 <= i < rest.len() implies fragment::valid_fragment_name(
            (#[trigger] rest[i]).fragment.name,
        ) by {
            assert(rest[i] == fragments[i]);
        }
        lemma_payload_below_fragments(rest, staging, mounts);
        let name = last.fragment.name;
        assert(fragment::valid_fragment_name(fragments[fragments.len() - 1].fragment.name));
        fragment::law_fragment_name_is_one_component(fragments_dir(staging), name);
        assert(path::lies_under(fragment_dir(staging, name), fragments_dir(staging)));
        assert forall|k: int| 0 <= k < all.len() implies writes_entry(
            (#[trigger] all[k]).action,
            staging,
            "fragments"@,
        ) by {
            if k < front.len() {
                assert(all[k] == front[k]);
            } else {
                assert(all[k] == fragment_steps(last, staging, mounts)[k - front.len()]);
            }
        }
    }
}

/// Every step of the staging plan stays inside the staging directory, and
/// writes only to the entries that the output consists of.
pub proof fn law_plan_stays_in_the_staging_directory(job: JobView, staging: Seq<char>, k: int)
    requires
        named_fragments(job.fragments),
        0 <= k < staging_plan(job, staging).len(),
    ensures
        stays_staged(job, staging, staging_plan(job, staging)[k].action),
{
    let opening = opening_steps(job, staging);
    let payload = payload_steps(job.fragments, staging, job.mounts);
    let entries = written_entries(job);
    let step = staging_plan(job, staging)[k];
    lemma_payload_below_fragments(job.fragments, staging, job.mounts);
    if k < opening.len() {
        assert(step == opening[k]);
        assert(writes_entry(step.action, staging, entries[k]));
    } else if k < opening.len() + payload.len() {
        assert(step == payload[k - opening.len()]);
        assert(writes_entry(step.action, staging, entries[3]));
    } else {
        let m = k - opening.len() - payload.len();
        assert(step == closing_steps(job, staging)[m]);
        if holds_mounts(job) && m == 0 {
            assert(writes_entry(step.action, staging, entries[4]));
        }
    }
}

/// An output can always be regenerated: the entries that it consists of are
/// those that the next run accepts at its target, with the ignore file or
/// without it.
pub proof fn law_output_is_regenerable(job: JobView, dir: Seq<char>)
    ensures
        self_contained::unsafe_target(dir, TargetView::Directory(written_entries(job))) is None,
{
    let entries = written_entries(job);
    assert(entries[2] == SENTINEL_FILENAME@);
    assert(entries.contains(SENTINEL_FILENAME@));
}

/// An action of the staging plan, given by paths relative to the staging
/// directory, as it is performed in a staging directory.
pub open spec fn placed_at(action: ActionView, staging: Seq<char>) -> ActionView {
    match action {
        ActionView::WriteFile { path, contents } => ActionView::WriteFile {
            path: path::path_join(staging, path),
            contents,
        },
        ActionView::CopyFile { from, to } => ActionView::CopyFile {
            from,
            to: path::path_join(staging, to),
        },
        ActionView::CreateDirs { path } => ActionView::CreateDirs {
            path: path::path_join(staging, path),
        },
        ActionView::Materialize { image_ref, dest } => ActionView::Materialize {
            image_ref,
            dest: path::path_join(staging, dest),
        },
        ActionView::RestrictMounts { fragment_dir } => ActionView::RestrictMounts {
            fragment_dir: path::path_join(staging, fragment_dir),
        },
        ActionView::SetMode { mode, .. } => ActionView::SetMode { path: staging, mode },
        other => other,
    }
}

/// What a job does in its staging directory, by relative paths: which entries
/// it writes, and with what.
pub open spec fn relative_plan(job: JobView) -> Seq<ActionView> {
    staging_plan(job, Seq::empty()).map_values(|s: StepView| s.action)
}

/// Materializing fragments is the same wherever the staging directory is.
proof fn lemma_payload_placed(
    fragments: Seq<LoadedView>,
    staging: Seq<char>,
    mounts: MountMaterialization,
)
    ensures
        payload_steps(fragments, staging, mounts).len() == payload_steps(
            fragments,
            Seq::empty(),
            mounts,
        ).len(),
        forall|k: int|
            0 <= k < payload_steps(fragments, staging, mounts).len() ==> (
            #[trigger] payload_steps(fragments, staging, mounts)[k]).action == placed_at(
                payload_steps(fragments, Seq::empty(), mounts)[k].action,
                staging,
            ),
    decreases fragments.len(),
{
    if fragments.len() > 0 {
        let rest = fragments.drop_last();
        let here = payload_steps(fragments, staging, mounts);
        let relative = payload_steps(fragments, Seq::empty(), mounts);
        let front = payload_steps(rest, staging, mounts);
        let relative_front = payload_steps(rest, Seq::empty(), mounts);
        let name = fragments.last().fragment.name;
        lemma_payload_placed(rest, staging, mounts);
        reveal_strlit("fragments");
        let empty = Seq::<char>::empty();
        assert(fragments_dir(empty) =~= "fragments"@);
        assert(fragments_dir(staging).last() == 's');
        assert(fragment_dir(staging, name) =~= path::path_join(
            staging,
            fragment_dir(empty, name),
        ));
        assert forall|k: int| 0 <= k < here.len() implies (#[trigger] here[k]).action
            == placed_at(relative[k].action, staging) by {
            if k < front.len() {
                assert(here[k] == front[k]);
                assert(relative[k] == relative_front[k]);
            } else {
                let m = k - front.len();
                assert(here[k] == fragment_steps(fragments.last(), staging, mounts)[m]);
                assert(relative[k] == fragment_steps(fragments.last(), empty, mounts)[m]);
            }
        }
    }
}

/// What a job does in its staging directory does not depend on where that
/// directory is: the staging plan is the relative plan, performed there.
pub proof fn law_plan_is_the_same_in_every_place(job: JobView, staging: Seq<char>)
    ensures
        staging_plan(job, staging).len() == relative_plan(job).len(),
        forall|k: int|
            0 <= k < relative_plan(job).len() ==> staging_plan(job, staging)[k].action
                == placed_at(#[trigger] relative_plan(job)[k], staging),
{
    let empty = Seq::<char>::empty();
    let plan = staging_plan(job, staging);
    let relative = staging_plan(job, empty);
    let opening = opening_steps(job, staging);
    let payload = payload_steps(job.fragments, staging, job.mounts);
    lemma_payload_placed(job.fragments, staging, job.mounts);
    let relative_opening = opening_steps(job, empty);
    let relative_payload = payload_steps(job.fragments, empty, job.mounts);
    assert forall|k: int| 0 <= k < relative_plan(job).len() implies plan[k].action == placed_at(
        #[trigger] relative_plan(job)[k],
        staging,
    ) by {
        assert(relative_plan(job)[k] == relative[k].action);
        if k < opening.len() {
            assert(plan[k] == opening[k]);
            assert(relative[k] == relative_opening[k]);
            assert(path::path_join(empty, "Containerfile"@) =~= "Containerfile"@);
            assert(path::path_join(empty, "manifest.yaml"@) =~= "manifest.yaml"@);
            assert(path::path_join(empty, SENTINEL_FILENAME@) =~= SENTINEL_FILENAME@);
            assert(path::path_join(empty, "fragments"@) =~= "fragments"@);
        } else if k < opening.len() + payload.len() {
            assert(plan[k] == payload[k - opening.len()]);
            assert(relative[k] == relative_payload[k - opening.len()]);
        } else {
            let m = k - opening.len() - payload.len();
            assert(plan[k] == closing_steps(job, staging)[m]);
            assert(relative[k] == closing_steps(job, empty)[m]);
            assert(path::path_join(empty, GITIGNORE_FILENAME@) =~= GITIGNORE_FILENAME@);
        }
    }
}

/// The run performed the whole relative plan in its staging directory, in
/// order, and every step of it succeeded.
pub open spec fn performed_plan(job: JobView, events: Seq<OutputEvent>) -> bool {
    &&& events.len() >= 3 + relative_plan(job).len()
    &&& forall|k: int|
        0 <= k < relative_plan(job).len() ==> asks_for(
            job,
            events.take(3 + k),
            placed_at(#[trigger] relative_plan(job)[k], staging_of(events)),
        ) && events[3 + k] is Done
}

/// Every finished run of a job performed the job's relative plan, so a second
/// run writes the same entries as the first, each with the same contents or
/// from the same source.
pub proof fn law_finished_runs_write_the_same(job: JobView, events: Seq<OutputEvent>)
    requires
        phase_after(job, events) is Finished,
    ensures
        performed_plan(job, events),
{
    lemma_trail(job, events);
    let staging = staging_of(events);
    law_plan_is_the_same_in_every_place(job, staging);
    assert forall|k: int| 0 <= k < relative_plan(job).len() implies asks_for(
        job,
        events.take(3 + k),
        placed_at(#[trigger] relative_plan(job)[k], staging),
    ) && events[3 + k] is Done by {
        law_staging_follows_the_plan(job, events, k);
    }
}

/// The files that the first `count` steps of a run's staging plan leave, by
/// their paths relative to the staging directory, given what each action
/// leaves in a staging directory.
pub open spec fn staged_tree(
    job: JobView,
    events: Seq<OutputEvent>,
    leaves: spec_fn(ActionView, Seq<char>) -> Map<Seq<char>, Seq<u8>>,
    count: nat,
) -> Map<Seq<char>, Seq<u8>>
    decreases count,
{
    if count == 0 {
        Map::empty()
    } else {
        let before = staged_tree(job, events, leaves, (count - 1) as nat);
        match current_step(job, phase_after(job, events.take(3 + count - 1))) {
            Some(step) => before.union_prefer_right(leaves(step.action, staging_of(events))),
            None => before,
        }
    }
}

/// What an action leaves does not depend on where the staging directory is.
pub open spec fn leaves_the_same(
    leaves: spec_fn(ActionView, Seq<char>) -> Map<Seq<char>, Seq<u8>>,
) -> bool {
    forall|action: ActionView, a: Seq<char>, b: Seq<char>|
        leaves(#[trigger] placed_at(action, a), a) == leaves(#[trigger] placed_at(action, b), b)
}

/// The trees that two runs have staged after as many steps are the same.
proof fn lemma_same_tree(
    job: JobView,
    first: Seq<OutputEvent>,
    second: Seq<OutputEvent>,
    leaves: spec_fn(ActionView, Seq<char>) -> Map<Seq<char>, Seq<u8>>,
    count: nat,
)
    requires
        performed_plan(job, first),
        performed_plan(job, second),
        leaves_the_same(leaves),
        count <= relative_plan(job).len(),
    ensures
        staged_tree(job, first, leaves, count) == staged_tree(job, second, leaves, count),
    decreases count,
{
    if count > 0 {
        lemma_same_tree(job, first, second, leaves, (count - 1) as nat);
        let action = relative_plan(job)[count - 1];
        let a = staging_of(first);
        let b = staging_of(second);
        assert(asks_for(job, first.take(3 + (count - 1)), placed_at(action, a)));
        assert(asks_for(job, second.take(3 + (count - 1)), placed_at(action, b)));
        assert(leaves(placed_at(action, a), a) == leaves(placed_at(action, b), b));
    }
}

/// Regeneration is idempotent: where what each action leaves depends on the
/// action alone, two finished runs of one job stage the same tree, and the
/// tree that is staged is what takes the place of the target.
pub proof fn law_regeneration_gives_the_same_tree(
    job: JobView,
    first: Seq<OutputEvent>,
    second: Seq<OutputEvent>,
    leaves: spec_fn(ActionView, Seq<char>) -> Map<Seq<char>, Seq<u8>>,
)
    requires
        phase_after(job, first) is Finished,
        phase_after(job, second) is Finished,
        leaves_the_same(leaves),
    ensures
        staged_tree(job, first, leaves, relative_plan(job).len()) == staged_tree(
            job,
            second,
            leaves,
            relative_plan(job).len(),
        ),
        target_fate(job, first) == TargetFate::Replaced,
        target_fate(job, second) == TargetFate::Replaced,
{
    law_finished_runs_write_the_same(job, first);
    law_finished_runs_write_the_same(job, second);
    lemma_same_tree(job, first, second, leaves, relative_plan(job).len());
    lemma_fate(job, first);
    lemma_fate(job, second);
}

/// What a look at the target found is an output of the job.
pub open spec fn found_output(job: JobView, event: OutputEvent) -> bool {
    event matches OutputEvent::Probed(probe) && !probe.is_symlink && probe.state@
        == TargetView::Directory(written_entries(job))
}

/// A run over an earlier output of the same job finishes when every action
/// succeeds: the earlier output is accepted both times it is looked at, the
/// plan is performed again, and its result takes the place of the earlier
/// output.
pub proof fn law_regeneration_succeeds(job: JobView, events: Seq<OutputEvent>)
    requires
        events.len() == relative_plan(job).len() + 7,
        found_output(job, events[0]),
        events[2] is Staged,
        found_output(job, events[3 + relative_plan(job).len() as int]),
        forall|k: int|
            0 <= k < events.len() && k != 0 && k != 2 && k != 3 + relative_plan(job).len() ==> (
            #[trigger] events[k]) is Done,
    ensures
        phase_after(job, events) == (PhaseView::Finished { notice: None }),
        target_fate(job, events) == TargetFate::Replaced,
        performed_plan(job, events),
{
    let staging = staging_of(events);
    let n = relative_plan(job).len() as int;
    law_plan_is_the_same_in_every_place(job, staging);
    law_output_is_regenerable(job, job.dir);
    assert(n >= 1);
    assert(staged(job, events, n - 1));
    lemma_filling(job, events, n - 1);
    assert(events.take(3 + n).drop_last() =~= events.take(3 + n - 1));
    assert(events[3 + n - 1] is Done);
    assert(phase_after(job, events.take(3 + n)) == PhaseView::Rechecking { staging });
    assert(events.take(4 + n).drop_last() =~= events.take(3 + n));
    assert(phase_after(job, events.take(4 + n)) == PhaseView::SettingAside { staging });
    assert(events.take(5 + n).drop_last() =~= events.take(4 + n));
    assert(events[4 + n] is Done);
    assert(phase_after(job, events.take(5 + n)) == (PhaseView::Publishing {
        staging,
        replaces: true,
    }));
    assert(events.take(6 + n).drop_last() =~= events.take(5 + n));
    assert(events[5 + n] is Done);
    assert(phase_after(job, events.take(6 + n)) == PhaseView::Clearing { staging });
    assert(events.take(7 + n) =~= events);
    assert(events.drop_last() =~= events.take(6 + n));
    assert(events[6 + n] is Done);
    lemma_fate(job, events);
    law_finished_runs_write_the_same(job, events);
}

/// The ignore file is written exactly when the output holds mount material.
pub proof fn law_ignore_file_marks_mount_material(job: JobView, staging: Seq<char>)
    ensures
        staging_plan(job, staging).contains(ignore_step(staging)) <==> holds_mounts(job),
{
    let plan = staging_plan(job, staging);
    let opening = opening_steps(job, staging);
    let payload = payload_steps(job.fragments, staging, job.mounts);
    let closing = closing_steps(job, staging);
    reveal_strlit("writing the mount material .gitignore");
    reveal_strlit("writing staged Containerfile");
    reveal_strlit("writing sentinel marker");
    if holds_mounts(job) {
        assert(plan[opening.len() + payload.len() as int] == closing[0]);
        assert(plan.contains(ignore_step(staging)));
    } else if plan.contains(ignore_step(staging)) {
        let k = choose|k: int| 0 <= k < plan.len() && plan[k] == ignore_step(staging);
        if k < opening.len() {
            assert(plan[k] == opening[k]);
            assert(opening[0].context.len() != ignore_step(staging).context.len());
            assert(opening[2].context.len() != ignore_step(staging).context.len());
        } else if k < opening.len() + payload.len() {
            lemma_payload_writes_no_file(job.fragments, staging, job.mounts);
            assert(plan[k] == payload[k - opening.len()]);
        } else {
            assert(plan[k] == closing[k - opening.len() - payload.len()]);
        }
    }
}

/// Steps that materialize fragments write no single file.
proof fn lemma_payload_writes_no_file(
    fragments: Seq<LoadedView>,
    staging: Seq<char>,
    mounts: MountMaterialization,
)
    ensures
        forall|k: int|
            0 <= k < payload_steps(fragments, staging, mounts).len() ==> !((
            #[trigger] payload_steps(fragments, staging, mounts)[k]).action is WriteFile),
    decreases fragments.len(),
{
    if fragments.len() > 0 {
        let front = payload_steps(fragments.drop_last(), staging, mounts);
        let all = payload_steps(fragments, staging, mounts);
        lemma_payload_writes_no_file(fragments.drop_last(), staging, mounts);
        assert forall|k: int| 0 <= k < all.len() implies !((#[trigger] all[k]).action
            is WriteFile) by {
            if k < front.len() {
                assert(all[k] == front[k]);
            } else {
                assert(all[k] == fragment_steps(fragments.last(), staging, mounts)[k
                    - front.len()]);
            }
        }
    }
}

/// When digests are kept, what is materialized is exactly the image whose
/// layers were loaded: the one pinned to the digest that was resolved then.
pub proof fn law_materialization_pulls_the_loaded_digest(
    metadata: LayeredMetadata,
    image_ref: Seq<char>,
    digest: Seq<char>,
    claims: MountAnnotationView,
    declared: Seq<char>,
    index: int,
    staging: Seq<char>,
    mounts: MountMaterialization,
)
    ensures
        fragment_steps(
            loader::placed(
                loader::loaded_from(
                    metadata,
                    registry::pinned_text(image_ref, digest),
                    digest,
                    claims,
                ),
                declared,
                index,
                true,
            ),
            staging,
            mounts,
        )[0].action == (ActionView::Materialize {
            image_ref: registry::pinned_text(image_ref, digest),
            dest: fragment_dir(staging, metadata.fragment.name@),
        }),
{
}

proof fn lemma_payload_places(
    fragments: Seq<LoadedView>,
    staging: Seq<char>,
    mounts: MountMaterialization,
)
    ensures
        ({
            let steps = payload_steps(fragments, staging, mounts);
            let dest = |name: Seq<char>|
                path::path_join(path::path_join(staging, "fragments"@), name);
            &&& mounts == MountMaterialization::Write ==> {
                &&& steps.len() == 2 * fragments.len()
                &&& forall|i: int|
                    0 <= i < fragments.len() ==> {
                        let f = #[trigger] fragments[i];
                        &&& steps[2 * i].action == ActionView::Materialize {
                            image_ref: f.source,
                            dest: dest(f.fragment.name),
                        }
                        &&& steps[2 * i + 1].action == ActionView::RestrictMounts {
                            fragment_dir: dest(f.fragment.name),
                        }
                    }
            }
            &&& mounts == MountMaterialization::Skip ==> {
                &&& steps.len() == fragments.len()
                &&& forall|i: int|
                    0 <= i < fragments.len() ==> {
                        let f = #[trigger] fragments[i];
                        steps[i].action == ActionView::Materialize {
                            image_ref: f.source,
                            dest: dest(f.fragment.name),
                        }
                    }
            }
        }),
    decreases fragments.len(),
{
    if fragments.len() > 0 {
        let front = fragments.drop_last();
        lemma_payload_places(front, staging, mounts);
        let before = payload_steps(front, staging, mounts);
        let steps = payload_steps(fragments, staging, mounts);
        let added = fragment_steps(fragments.last(), staging, mounts);
        assert(steps == before + added);
        let dest = |name: Seq<char>| path::path_join(path::path_join(staging, "fragments"@), name);
        if mounts == MountMaterialization::Write {
            assert forall|i: int| 0 <= i < fragments.len() implies {
                let f = #[trigger] fragments[i];
                &&& steps[2 * i].action == ActionView::Materialize {
                    image_ref: f.source,
                    dest: dest(f.fragment.name),
                }
                &&& steps[2 * i + 1].action == ActionView::RestrictMounts {
                    fragment_dir: dest(f.fragment.name),
                }
            } by {
                if i < front.len() {
                    assert(front[i] == fragments[i]);
                    assert(steps[2 * i] == before[2 * i]);
                    assert(steps[2 * i + 1] == before[2 * i + 1]);
                } else {
                    assert(steps[2 * i] == added[0]);
                    assert(steps[2 * i + 1] == added[1]);
                }
            }
        } else {
            assert forall|i: int| 0 <= i < fragments.len() implies {
                let f = #[trigger] fragments[i];
                steps[i].action == ActionView::Materialize {
                    image_ref: f.source,
                    dest: dest(f.fragment.name),
                }
            } by {
                if i < front.len() {
                    assert(front[i] == fragments[i]);
                    assert(steps[i] == before[i]);
                } else {
                    assert(steps[i] == added[0]);
                }
            }
        }
    }
}

/// Everything that an output holds is staged, each once: the Containerfile as
/// it was generated, a copy of the manifest, the sentinel, and every fragment
/// under its name from where it was loaded, restricted right away where mount
/// material is written. The ignore file comes last where there is mount
/// material in the output, and at the end the output is made readable.
pub proof fn law_everything_is_staged_once(job: OutputJob, staging: Seq<char>)
    ensures
        ({
            let plan = staging_plan(job@, staging);
            let n = job.fragments@.len() as int;
            let each = if job.mounts == MountMaterialization::Write {
                2int
            } else {
                1
            };
            let ignores = job.mounts == MountMaterialization::Write && exists|i: int|
                0 <= i < n && (#[trigger] job.fragments@[i]).mount_points@.len() > 0;
            let dir = path::path_join(staging, "fragments"@);
            &&& plan.len() == 5 + (if each == 2 {
                2 * n
            } else {
                n
            }) + if ignores {
                1int
            } else {
                0
            }
            &&& plan[0].action == ActionView::WriteFile {
                path: path::path_join(staging, "Containerfile"@),
                contents: job.containerfile@,
            }
            &&& plan[1].action == ActionView::CopyFile {
                from: job.manifest_path@,
                to: path::path_join(staging, "manifest.yaml"@),
            }
            &&& plan[2].action == ActionView::WriteFile {
                path: path::path_join(staging, ".osfragment-assemble"@),
                contents: "osfragment-assemble v0.1.0\n"@,
            }
            &&& plan[3].action == ActionView::CreateDirs { path: dir }
            &&& forall|i: int|
                0 <= i < n ==> {
                    let f = #[trigger] job.fragments@[i];
                    let image = f.source.image();
                    let dest = path::path_join(dir, f.fragment.name@);
                    &&& each == 2 ==> plan[4 + 2 * i].action == ActionView::Materialize {
                        image_ref: image,
                        dest,
                    }
                    &&& each == 2 ==> plan[5 + 2 * i].action == ActionView::RestrictMounts {
                        fragment_dir: dest,
                    }
                    &&& each == 1 ==> plan[4 + i].action == ActionView::Materialize {
                        image_ref: image,
                        dest,
                    }
                }
            &&& ignores ==> plan[plan.len() - 2].action == ActionView::WriteFile {
                path: path::path_join(staging, ".gitignore"@),
                contents: self_contained::gitignore_text(),
            }
            &&& plan.last().action == ActionView::SetMode { path: staging, mode: 0o755 }
        }),
{
    let view = job@;
    let plan = staging_plan(view, staging);
    let opening = opening_steps(view, staging);
    let payload = payload_steps(view.fragments, staging, view.mounts);
    let closing = closing_steps(view, staging);
    let n = job.fragments@.len() as int;
    lemma_payload_places(view.fragments, staging, view.mounts);
    assert(view.fragments.len() == n);
    assert(plan == opening + payload + closing);
    assert forall|k: int| 0 <= k < 4 implies plan[k] == #[trigger] opening[k] by {}
    assert(plan[0] == opening[0] && plan[1] == opening[1] && plan[2] == opening[2] && plan[3]
        == opening[3]);
    assert forall|i: int| 0 <= i < n implies view.fragments[i] == (
    #[trigger] job.fragments@[i])@ by {}
    assert(self_contained::carries_mounts(view.fragments) <==> exists|i: int|
        0 <= i < n && (#[trigger] job.fragments@[i]).mount_points@.len() > 0) by {
        if self_contained::carries_mounts(view.fragments) {
            let i = choose|i: int|
                0 <= i < view.fragments.len() && (#[trigger] view.fragments[i]).mount_points.len()
                    > 0;
            assert(job.fragments@[i].mount_points@.len() == view.fragments[i].mount_points.len());
        }
        if exists|i: int| 0 <= i < n && (#[trigger] job.fragments@[i]).mount_points@.len() > 0 {
            let i = choose|i: int|
                0 <= i < n && (#[trigger] job.fragments@[i]).mount_points@.len() > 0;
            assert(view.fragments[i].mount_points.len() == job.fragments@[i].mount_points@.len());
        }
    }
    assert forall|i: int| 0 <= i < n implies {
        let f = #[trigger] job.fragments@[i];
        let image = f.source.image();
        let dest = path::path_join(path::path_join(staging, "fragments"@), f.fragment.name@);
        &&& job.mounts == MountMaterialization::Write ==> plan[4 + 2 * i].action
            == ActionView::Materialize { image_ref: image, dest }
        &&& job.mounts == MountMaterialization::Write ==> plan[5 + 2 * i].action
            == ActionView::RestrictMounts { fragment_dir: dest }
        &&& job.mounts == MountMaterialization::Skip ==> plan[4 + i].action
            == ActionView::Materialize { image_ref: image, dest }
    } by {
        let f = view.fragments[i];
        assert(f == job.fragments@[i]@);
        if job.mounts == MountMaterialization::Write {
            assert(plan[4 + 2 * i] == payload[2 * i]);
            assert(plan[5 + 2 * i] == payload[2 * i + 1]);
        } else {
            assert(plan[4 + i] == payload[i]);
        }
    }
    let m = closing.len() as int;
    assert(plan[plan.len() - 1] == closing[m - 1]);
    if m == 2 {
        assert(plan[plan.len() - 2] == closing[0]);
    }
}

/// Outside the staging plan a run moves things between the same few places:
/// the target, the staging directory beside it, and the place beside that
/// where an old output waits. It is moved back from where it was moved to, and
/// removed from there.
pub proof fn law_moves_are_between_the_same_places(
    job: JobView,
    staging: Seq<char>,
    replaces: bool,
    message: Seq<char>,
)
    ensures
        ({
            let action = |phase: PhaseView| current_step(job, phase)->0.action;
            let beside = self_contained::containing_dir(job.dir);
            let aside = staging + "-replaced"@;
            &&& action(PhaseView::Checking) == ActionView::ProbeTarget { dir: job.dir }
            &&& action(PhaseView::CreatingParent) == ActionView::CreateDirs { path: beside }
            &&& action(PhaseView::Staging) == ActionView::CreateStaging { parent: beside }
            &&& action(PhaseView::Rechecking { staging }) == ActionView::ProbeTarget {
                dir: job.dir,
            }
            &&& action(PhaseView::SettingAside { staging }) == ActionView::SetAside {
                dir: job.dir,
                aside,
            }
            &&& action(PhaseView::Publishing { staging, replaces }) == ActionView::Publish {
                staging,
                dir: job.dir,
            }
            &&& action(PhaseView::Restoring { staging, message }) == ActionView::Restore {
                aside,
                dir: job.dir,
            }
            &&& action(PhaseView::Clearing { staging }) == ActionView::RemoveDir { path: aside }
            &&& action(PhaseView::Discarding { staging, message }) == ActionView::Discard {
                staging,
            }
        }),
{
}

/// A failure is reported with what was being done and why it failed. Before
/// there is a staging directory it ends the run at once; from then on until
/// the output is published the staging directory is discarded first, and
/// whatever comes of that, the failure stays what it was.
pub proof fn law_failure_is_reported_as_it_was(
    job: JobView,
    events: Seq<OutputEvent>,
    reason: String,
    answer: OutputEvent,
)
    requires
        current_step(job, phase_after(job, events)) is Some,
    ensures
        ({
            let phase = phase_after(job, events);
            let failed = events.push(OutputEvent::Failed(reason));
            let message = current_step(job, phase)->0.context + ": "@ + reason@;
            &&& phase is Checking || phase is CreatingParent || phase is Staging
                || phase is Publishing && !phase->replaces ==> phase_after(job, failed)
                == (PhaseView::Stopped { message })
            &&& phase is Filling || phase is Rechecking || phase is SettingAside ==> {
                &&& phase_after(job, failed) == PhaseView::Discarding {
                    staging: staging_of(events),
                    message,
                }
                &&& phase_after(job, failed.push(answer)) == (PhaseView::Stopped { message })
            }
            &&& phase is Publishing && phase->replaces ==> {
                &&& phase_after(job, failed) == PhaseView::Restoring {
                    staging: staging_of(events),
                    message,
                }
                &&& answer is Done ==> phase_after(job, failed.push(answer))
                    == (PhaseView::Stopped { message })
            }
        }),
{
    let failed = events.push(OutputEvent::Failed(reason));
    lemma_trail(job, events);
    assert(failed.drop_last() =~= events);
    assert(failed.push(answer).drop_last() =~= failed);
    assert(phase_after(job, failed) == advanced(
        job,
        phase_after(job, events),
        OutputEvent::Failed(reason),
    ));
    assert(phase_after(job, failed.push(answer)) == advanced(
        job,
        phase_after(job, failed),
        answer,
    ));
}

/// A run where nothing stands at the target finishes when every action
/// succeeds: the plan is performed, and its result is moved to the target.
pub proof fn law_first_run_succeeds(job: JobView, events: Seq<OutputEvent>)
    requires
        events.len() == relative_plan(job).len() + 5,
        events[0] matches OutputEvent::Probed(probe) && !probe.is_symlink
            && probe.state is Absent,
        events[2] is Staged,
        events[3 + relative_plan(job).len() as int] matches OutputEvent::Probed(probe)
            && !probe.is_symlink && probe.state is Absent,
        forall|k: int|
            0 <= k < events.len() && k != 0 && k != 2 && k != 3 + relative_plan(job).len() ==> (
            #[trigger] events[k]) is Done,
    ensures
        phase_after(job, events) == (PhaseView::Finished { notice: None }),
        target_fate(job, events) == TargetFate::Replaced,
        performed_plan(job, events),
        asks_for(
            job,
            events.drop_last(),
            ActionView::Publish { staging: staging_of(events), dir: job.dir },
        ),
{
    let staging = staging_of(events);
    let n = relative_plan(job).len() as int;
    law_plan_is_the_same_in_every_place(job, staging);
    assert(n >= 1);
    assert(accepted(job, events[0]));
    assert(staged(job, events, n - 1));
    lemma_filling(job, events, n - 1);
    assert(events.take(3 + n).drop_last() =~= events.take(3 + n - 1));
    assert(events[3 + n - 1] is Done);
    assert(phase_after(job, events.take(3 + n)) == PhaseView::Rechecking { staging });
    assert(events.take(4 + n).drop_last() =~= events.take(3 + n));
    assert(phase_after(job, events.take(4 + n)) == (PhaseView::Publishing {
        staging,
        replaces: false,
    }));
    assert(events.drop_last() =~= events.take(4 + n));
    assert(events[4 + n] is Done);
    assert(events.last() == events[4 + n]);
    lemma_fate(job, events);
    law_finished_runs_write_the_same(job, events);
}

/// A run goes from one phase to the next in a fixed order: the target is
/// looked at, its directory and a staging directory are made, the plan is
/// performed step by step, and the target is looked at again. What stands
/// there, whatever it holds, is moved aside before the staged output takes its
/// place, and removed behind it; where nothing stands there, nothing is. A
/// target that is refused ends the run with the refusal.
pub proof fn law_run_goes_on_in_order(
    job: JobView,
    events: Seq<OutputEvent>,
    event: OutputEvent,
)
    ensures
        ({
            let before = phase_after(job, events);
            let after = phase_after(job, events.push(event));
            let staging = staging_of(events);
            let plan = staging_plan(job, staging);
            &&& phase_after(job, Seq::empty()) == PhaseView::Checking
            &&& event matches OutputEvent::Probed(probe) ==> match self_contained::refused_target(
                job.dir,
                probe,
            ) {
                Some(message) => {
                    &&& before is Checking ==> after == (PhaseView::Stopped { message })
                    &&& before is Rechecking ==> after == (PhaseView::Discarding {
                        staging,
                        message,
                    })
                },
                None => {
                    &&& before is Checking ==> after == PhaseView::CreatingParent
                    &&& before is Rechecking && probe.state is Absent ==> after == (
                    PhaseView::Publishing { staging, replaces: false })
                    &&& before is Rechecking && !(probe.state is Absent) ==> after == (
                    PhaseView::SettingAside { staging })
                },
            }
            &&& event is Done ==> {
                &&& before is CreatingParent ==> after == PhaseView::Staging
                &&& before is Filling && before->next + 1 < plan.len() ==> after == (
                PhaseView::Filling { staging, next: before->next + 1 })
                &&& before is Filling && before->next + 1 >= plan.len() ==> after == (
                PhaseView::Rechecking { staging })
                &&& before is SettingAside ==> after == (PhaseView::Publishing {
                    staging,
                    replaces: true,
                })
                &&& before is Publishing && before->replaces ==> after == (PhaseView::Clearing {
                    staging,
                })
                &&& before is Publishing && !before->replaces ==> after == (PhaseView::Finished {
                    notice: None,
                })
                &&& before is Clearing ==> after == (PhaseView::Finished { notice: None })
            }
            &&& event matches OutputEvent::Staged(place) ==> (before is Staging ==> after == (
            PhaseView::Filling { staging: place@, next: 0 }))
        }),
{
    lemma_trail(job, events);
    assert(events.push(event).drop_last() =~= events);
    assert(phase_after(job, events.push(event)) == advanced(
        job,
        phase_after(job, events),
        event,
    ));
}

/// An output that is written was written by what `perform` did: for every
/// step of the plan it was asked to perform exactly that action, and did.
pub proof fn law_finished_output_was_performed<F: Fn(&OutputAction) -> OutputEvent>(
    perform: F,
    job: JobView,
    events: Seq<OutputEvent>,
    k: int,
)
    requires
        run_answered(perform, job, events),
        phase_after(job, events) is Finished,
        0 <= k < staging_plan(job, staging_of(events)).len(),
    ensures
        exists|action: &OutputAction|
            action@ == staging_plan(job, staging_of(events))[k].action && #[trigger] call_ensures(
                perform,
                (action,),
                OutputEvent::Done,
            ),
        exists|action: &OutputAction|
            (action@ == ActionView::Publish { staging: staging_of(events), dir: job.dir })
                && #[trigger] call_ensures(perform, (action,), OutputEvent::Done),
{
    lemma_trail(job, events);
    law_staging_follows_the_plan(job, events, k);
    assert(event_answered(perform, job, events, 3 + k));
    assert(events[3 + k] is Done);
    assert(events[3 + k] == OutputEvent::Done);
    lemma_published(perform, job, events);
}

/// A finished run has published its staging directory.
proof fn lemma_published<F: Fn(&OutputAction) -> OutputEvent>(
    perform: F,
    job: JobView,
    events: Seq<OutputEvent>,
)
    requires
        run_answered(perform, job, events),
        phase_after(job, events) is Finished || phase_after(job, events) is Clearing,
    ensures
        exists|action: &OutputAction|
            (action@ == ActionView::Publish { staging: staging_of(events), dir: job.dir })
                && #[trigger] call_ensures(perform, (action,), OutputEvent::Done),
    decreases events.len(),
{
    let before = events.drop_last();
    let last = events.len() - 1;
    assert(events.len() > 0) by {
        if events.len() == 0 {
            assert(phase_after(job, events) == PhaseView::Checking);
        }
    }
    assert(events.take(last) =~= before);
    lemma_trail(job, before);
    assert(run_answered(perform, job, before)) by {
        assert forall|i: int| 0 <= i < before.len() implies #[trigger] event_answered(
            perform,
            job,
            before,
            i,
        ) by {
            assert(event_answered(perform, job, events, i));
            assert(before.take(i) =~= events.take(i));
            assert(before[i] == events[i]);
        }
    }
    let phase = phase_after(job, before);
    assert(phase_after(job, events) == advanced(job, phase, events.last()));
    if phase is Publishing {
        assert(before[2] == events[2]);
        assert(event_answered(perform, job, events, last));
        assert(events[last] == OutputEvent::Done);
    } else {
        assert(phase is Clearing || phase is Finished);
        lemma_published(perform, job, before);
        assert(before[2] == events[2]);
    }
}

/// What stands before the message of a failure says what was being done, to
/// what.
pub proof fn law_failures_say_what_was_being_done(
    job: JobView,
    staging: Seq<char>,
    replaces: bool,
    message: Seq<char>,
    fragment: LoadedView,
)
    ensures
        ({
            let context = |phase: PhaseView| current_step(job, phase)->0.context;
            let steps = fragment_steps(fragment, staging, MountMaterialization::Write);
            let opening = opening_steps(job, staging);
            let beside = self_contained::containing_dir(job.dir);
            let aside = staging + "-replaced"@;
            &&& context(PhaseView::Checking) == "reading "@ + job.dir
            &&& context(PhaseView::Rechecking { staging }) == "reading "@ + job.dir
            &&& context(PhaseView::CreatingParent) == "creating "@ + beside
            &&& context(PhaseView::Staging)
                == "creating staging directory for self-contained output"@
            &&& context(PhaseView::SettingAside { staging }) == "removing existing "@ + job.dir
            &&& context(PhaseView::Publishing { staging, replaces }) == "moving staged output "@
                + staging + " into "@ + job.dir
                + "; the generated output is complete and left at the staging path"@
            &&& context(PhaseView::Restoring { staging, message })
                == "moving the previous output back from "@ + aside
            &&& context(PhaseView::Clearing { staging }) == "removing the replaced output "@ + aside
                + "; the new output is in place at "@ + job.dir
            &&& opening[0].context == "writing staged Containerfile"@
            &&& opening[1].context == "copying manifest "@ + job.manifest_path
                + " into staged output"@
            &&& opening[2].context == "writing sentinel marker"@
            &&& opening[3].context == "creating "@ + path::path_join(staging, "fragments"@)
            &&& steps[0].context == "materializing fragment '"@ + fragment.fragment.name + "'"@
            &&& steps[1].context == "restricting mount material for fragment '"@
                + fragment.fragment.name + "'"@
            &&& ignore_step(staging).context == "writing the mount material .gitignore"@
            &&& mode_step(staging).context == "normalizing permissions on "@ + staging
        }),
{
}

} // verus!
