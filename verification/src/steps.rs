//! The steps of a plan, in the order in which they are carried out. The
//! caller takes them one by one and stops at the first that fails.

use vstd::prelude::*;
use crate::model::copy_texts;
use crate::reconcile::{Command, CommandView, Resolution, ResolutionView};
use crate::workflow::{resolution_views, Rollback, Switch};

verus! {

/// One step of a plan. `manager` is the place of the manager in the list
/// that the plan was made for.
#[derive(Clone, Debug)]
pub enum Step {
    /// Nothing is to be resolved for the manager.
    Idle { manager: usize },
    /// The command is run for the manager.
    Run { manager: usize, command: Command },
    /// The manager is written as its own configuration.
    WriteManager { manager: usize },
    /// The managers' names are written as the list of managers.
    WriteNames,
    /// The generation is written under its number.
    WriteGeneration,
}

/// What a `Step` holds, as plain values.
pub ghost enum StepView {
    Idle { manager: int },
    Run { manager: int, command: CommandView },
    WriteManager { manager: int },
    WriteNames,
    WriteGeneration,
}

impl View for Step {
    type V = StepView;

    open spec fn view(&self) -> StepView {
        match *self {
            Step::Idle { manager } => StepView::Idle { manager: manager as int },
            Step::Run { manager, command } => StepView::Run {
                manager: manager as int,
                command: command@,
            },
            Step::WriteManager { manager } => StepView::WriteManager { manager: manager as int },
            Step::WriteNames => StepView::WriteNames,
            Step::WriteGeneration => StepView::WriteGeneration,
        }
    }
}

/// The views of a list of steps.
pub open spec fn step_views(v: Seq<Step>) -> Seq<StepView> {
    Seq::new(v.len(), |i: int| v[i]@)
}

/// The steps of one manager's resolution: its commands in order, or the
/// one step that says that nothing changes.
pub open spec fn manager_steps(manager: int, resolution: ResolutionView) -> Seq<StepView> {
    if resolution.changed {
        Seq::new(
            resolution.commands.len(),
            |j: int| StepView::Run { manager, command: resolution.commands[j] },
        )
    } else {
        seq![StepView::Idle { manager }]
    }
}

/// What follows a manager's steps: with `write_each`, the writing of that
/// manager.
pub open spec fn manager_close(manager: int, write_each: bool) -> Seq<StepView> {
    if write_each {
        seq![StepView::WriteManager { manager }]
    } else {
        Seq::empty()
    }
}

/// The steps of the resolutions, manager after manager.
pub open spec fn resolution_steps(resolutions: Seq<ResolutionView>, write_each: bool) -> Seq<
    StepView,
>
    decreases resolutions.len(),
{
    if resolutions.len() == 0 {
        Seq::empty()
    } else {
        resolution_steps(resolutions.drop_last(), write_each) + manager_steps(
            resolutions.len() - 1,
            resolutions.last(),
        ) + manager_close(resolutions.len() - 1, write_each)
    }
}

/// The steps of a switch: the managers' steps, then, where a generation is
/// to be written, its writing.
pub open spec fn switch_steps(resolutions: Seq<ResolutionView>, appends: bool) -> Seq<StepView> {
    resolution_steps(resolutions, false) + if appends {
        seq![StepView::WriteGeneration]
    } else {
        Seq::empty()
    }
}

/// The steps of a rollback: for each manager its steps and then its
/// writing, at the end the writing of the names.
pub open spec fn rollback_steps(resolutions: Seq<ResolutionView>) -> Seq<StepView> {
    resolution_steps(resolutions, true).push(StepView::WriteNames)
}

/// A copy of a command.
pub fn copy_command(command: &Command) -> (out: Command)
    ensures
        out@ == command@,
{
    Command { operation: command.operation, words: copy_texts(command.words.as_slice()) }
}

/// The views of a list with one more step.
pub proof fn lemma_step_views_push(v: Seq<Step>, s: Step)
    ensures
        step_views(v.push(s)) == step_views(v).push(s@),
{
    assert(step_views(v.push(s)) =~= step_views(v).push(s@));
}

/// Appends the steps of the resolutions to `steps`.
fn push_resolution_steps(steps: &mut Vec<Step>, resolutions: &Vec<Resolution>, write_each: bool)
    ensures
        step_views(final(steps)@) == step_views(old(steps)@) + resolution_steps(
            resolution_views(resolutions@),
            write_each,
        ),
{
    let ghost before = step_views(steps@);
    let ghost all = resolution_views(resolutions@);
    let mut i: usize = 0;
    proof {
        assert(all.take(0) =~= Seq::<ResolutionView>::empty());
        assert(before + resolution_steps(all.take(0), write_each) =~= before);
    }
    while i < resolutions.len()
        invariant
            i <= resolutions.len(),
            all == resolution_views(resolutions@),
            step_views(steps@) == before + resolution_steps(all.take(i as int), write_each),
        decreases resolutions.len() - i,
    {
        let resolution = &resolutions[i];
        let ghost done = step_views(steps@);
        proof {
            assert(all.take(i + 1).drop_last() =~= all.take(i as int));
            assert(all.take(i + 1).last() == resolution@);
        }
        if resolution.changed {
            let mut j: usize = 0;
            proof {
                assert(done + manager_steps(i as int, resolution@).take(0) =~= done);
            }
            while j < resolution.commands.len()
                invariant
                    j <= resolution.commands.len(),
                    resolution.changed,
                    step_views(steps@) == done + manager_steps(i as int, resolution@).take(
                        j as int,
                    ),
                decreases resolution.commands.len() - j,
            {
                let step = Step::Run { manager: i, command: copy_command(&resolution.commands[j]) };
                proof {
                    lemma_step_views_push(steps@, step);
                    assert(resolution@.commands[j as int] == resolution.commands@[j as int]@);
                    assert((done + manager_steps(i as int, resolution@).take(j as int)).push(
                        step@,
                    ) =~= done + manager_steps(i as int, resolution@).take(j + 1));
                }
                steps.push(step);
                j += 1;
            }
            proof {
                assert(manager_steps(i as int, resolution@).take(
                    resolution.commands.len() as int,
                ) =~= manager_steps(i as int, resolution@));
            }
        } else {
            let step = Step::Idle { manager: i };
            proof {
                lemma_step_views_push(steps@, step);
                assert(done.push(step@) =~= done + manager_steps(i as int, resolution@));
            }
            steps.push(step);
        }
        let ghost run = step_views(steps@);
        if write_each {
            let step = Step::WriteManager { manager: i };
            proof {
                lemma_step_views_push(steps@, step);
                assert(run.push(step@) =~= run + manager_close(i as int, write_each));
            }
            steps.push(step);
        } else {
            proof {
                assert(run + manager_close(i as int, write_each) =~= run);
            }
        }
        proof {
            assert(before + resolution_steps(all.take(i as int), write_each) + manager_steps(
                i as int,
                resolution@,
            ) + manager_close(i as int, write_each) =~= before + resolution_steps(
                all.take(i + 1),
                write_each,
            ));
        }
        i += 1;
    }
    proof {
        assert(all.take(resolutions.len() as int) =~= all);
    }
}

impl Switch {
    /// The steps of this switch, in order.
    pub fn steps(&self) -> (out: Vec<Step>)
        ensures
            step_views(out@) == switch_steps(
                resolution_views(self.resolutions@),
                self.append is Some,
            ),
    {
        let mut out: Vec<Step> = Vec::new();
        proof {
            assert(step_views(out@) =~= Seq::<StepView>::empty());
        }
        push_resolution_steps(&mut out, &self.resolutions, false);
        let ghost run = step_views(out@);
        proof {
            assert(run =~= resolution_steps(resolution_views(self.resolutions@), false));
        }
        if self.append.is_some() {
            proof {
                lemma_step_views_push(out@, Step::WriteGeneration);
                assert(run.push(StepView::WriteGeneration) =~= run + seq![
                    StepView::WriteGeneration,
                ]);
            }
            out.push(Step::WriteGeneration);
        } else {
            proof {
                assert(run + Seq::<StepView>::empty() =~= run);
            }
        }
        out
    }
}

impl Rollback {
    /// The steps of this rollback, in order.
    pub fn steps(&self) -> (out: Vec<Step>)
        ensures
            step_views(out@) == rollback_steps(resolution_views(self.resolutions@)),
    {
        let mut out: Vec<Step> = Vec::new();
        proof {
            assert(step_views(out@) =~= Seq::<StepView>::empty());
        }
        push_resolution_steps(&mut out, &self.resolutions, true);
        proof {
            assert(step_views(out@) =~= resolution_steps(
                resolution_views(self.resolutions@),
                true,
            ));
            lemma_step_views_push(out@, Step::WriteNames);
        }
        out.push(Step::WriteNames);
        out
    }
}

/// The managers' steps write no generation.
pub proof fn lemma_resolution_steps_write_no_generation(
    resolutions: Seq<ResolutionView>,
    write_each: bool,
)
    ensures
        forall|k: int|
            0 <= k < resolution_steps(resolutions, write_each).len() ==> #[trigger] resolution_steps(
                resolutions,
                write_each,
            )[k] != StepView::WriteGeneration,
    decreases resolutions.len(),
{
    if resolutions.len() > 0 {
        lemma_resolution_steps_write_no_generation(resolutions.drop_last(), write_each);
    }
}

/// A switch writes a generation only as its last step, after every command,
/// and only where a generation is to be written; a rollback writes none.
pub proof fn generation_is_written_last(resolutions: Seq<ResolutionView>, appends: bool)
    ensures
        forall|k: int|
            0 <= k < switch_steps(resolutions, appends).len() && #[trigger] switch_steps(
                resolutions,
                appends,
            )[k] == StepView::WriteGeneration ==> appends && k == switch_steps(
                resolutions,
                appends,
            ).len() - 1,
        appends ==> switch_steps(resolutions, appends).last() == StepView::WriteGeneration,
        forall|k: int|
            0 <= k < rollback_steps(resolutions).len() ==> #[trigger] rollback_steps(
                resolutions,
            )[k] != StepView::WriteGeneration,
{
    lemma_resolution_steps_write_no_generation(resolutions, false);
    lemma_resolution_steps_write_no_generation(resolutions, true);
}

} // verus!
