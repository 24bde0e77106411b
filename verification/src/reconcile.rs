//! The reconciler: from a diff and a manager's templates to the commands
//! that bring the system to the new state.

use vstd::prelude::*;
use crate::diff::{lemma_picked, picked};
use crate::model::{Dpm, DpmView};
use crate::order::{lemma_ordered, order_depends_on_the_names_alone, ordered, sort_names};
use crate::text::{
    join_spaced, join_with_spaces, lemma_texts_push, replace_placeholder, split_whitespace,
    substitute, texts, tokens,
};

verus! {

/// What a command does to its packages.
#[derive(Clone, Copy, Debug, PartialEq, Eq, Structural)]
pub enum Operation {
    Uninstall,
    Install,
}

/// One command: its words in order, the program's name first. A command
/// without words cannot be launched.
#[derive(Clone, Debug)]
pub struct Command {
    pub operation: Operation,
    pub words: Vec<String>,
}

/// What a `Command` holds, as plain text.
pub ghost struct CommandView {
    pub operation: Operation,
    pub words: Seq<Seq<char>>,
}

impl View for Command {
    type V = CommandView;

    open spec fn view(&self) -> CommandView {
        CommandView { operation: self.operation, words: texts(self.words@) }
    }
}

/// The views of a list of commands.
pub open spec fn command_views(v: Seq<Command>) -> Seq<CommandView> {
    Seq::new(v.len(), |i: int| v[i]@)
}

/// The views of a list with one more command are the views of the list with
/// one more view.
pub proof fn lemma_command_views_push(v: Seq<Command>, c: Command)
    ensures
        command_views(v.push(c)) == command_views(v).push(c@),
{
    assert(command_views(v.push(c)) =~= command_views(v).push(c@));
}

/// What reconciling one manager takes: whether its packages change, and the
/// commands to run, in order.
#[derive(Clone, Debug)]
pub struct Resolution {
    pub changed: bool,
    pub commands: Vec<Command>,
}

/// What a `Resolution` holds, as plain text.
pub ghost struct ResolutionView {
    pub changed: bool,
    pub commands: Seq<CommandView>,
}

impl View for Resolution {
    type V = ResolutionView;

    open spec fn view(&self) -> ResolutionView {
        ResolutionView { changed: self.changed, commands: command_views(self.commands@) }
    }
}

/// The command that `template` gives for `value`: the placeholder replaced,
/// the line split at whitespace.
pub open spec fn command_for(operation: Operation, template: Seq<char>, value: Seq<char>)
    -> CommandView {
    CommandView { operation, words: tokens(substitute(template, value)) }
}

/// One command for each package, in the packages' order.
pub open spec fn one_by_one(operation: Operation, template: Seq<char>, packages: Seq<Seq<char>>)
    -> Seq<CommandView> {
    Seq::new(packages.len(), |i: int| command_for(operation, template, packages[i]))
}

/// The commands of one operation: none without packages; with batching one
/// command that takes all of them, joined by spaces; else one for each.
pub open spec fn operation_commands(
    operation: Operation,
    template: Seq<char>,
    packages: Seq<Seq<char>>,
    batch: bool,
) -> Seq<CommandView> {
    if packages.len() == 0 {
        Seq::empty()
    } else if batch {
        seq![command_for(operation, template, join_spaced(packages))]
    } else {
        one_by_one(operation, template, packages)
    }
}

/// The commands that reconcile one manager: the removals, then the
/// additions, the packages of each in the order of names.
pub open spec fn plan(manager: DpmView, added: Seq<Seq<char>>, removed: Seq<Seq<char>>) -> Seq<
    CommandView,
> {
    operation_commands(
        Operation::Uninstall,
        manager.uninstall,
        ordered(removed),
        manager.batches(),
    ) + operation_commands(Operation::Install, manager.install, ordered(added), manager.batches())
}

/// What reconciling one manager takes, for a given diff.
pub open spec fn resolution(manager: DpmView, added: Seq<Seq<char>>, removed: Seq<Seq<char>>)
    -> ResolutionView {
    ResolutionView {
        changed: added.len() > 0 || removed.len() > 0,
        commands: plan(manager, added, removed),
    }
}

/// Builds the command that `template` gives for `value`.
pub fn build_command(operation: Operation, template: &str, value: &str) -> (out: Command)
    ensures
        out@ == command_for(operation, template@, value@),
{
    let line = replace_placeholder(template, value);
    Command { operation, words: split_whitespace(line.as_str()) }
}

/// Appends the commands of one operation to `commands`.
pub fn push_operation(
    commands: &mut Vec<Command>,
    operation: Operation,
    template: &str,
    packages: &[String],
    batch: bool,
)
    ensures
        command_views(final(commands)@) == command_views(old(commands)@) + operation_commands(
            operation,
            template@,
            texts(packages@),
            batch,
        ),
{
    let ghost before = command_views(commands@);
    let ghost names = texts(packages@);
    if packages.len() == 0 {
        proof {
            assert(before + Seq::<CommandView>::empty() =~= before);
        }
    } else if batch {
        let all = join_with_spaces(packages);
        let command = build_command(operation, template, all.as_str());
        proof {
            lemma_command_views_push(commands@, command);
            assert(before.push(command@) =~= before + seq![command@]);
        }
        commands.push(command);
    } else {
        let mut i: usize = 0;
        proof {
            assert(before + one_by_one(operation, template@, names.take(0)) =~= before);
        }
        while i < packages.len()
            invariant
                i <= packages.len(),
                names == texts(packages@),
                command_views(commands@) == before + one_by_one(
                    operation,
                    template@,
                    names.take(i as int),
                ),
            decreases packages.len() - i,
        {
            let command = build_command(operation, template, packages[i].as_str());
            proof {
                lemma_command_views_push(commands@, command);
                assert(names.take(i + 1)[i as int] == packages@[i as int]@);
                assert(one_by_one(operation, template@, names.take(i as int)).push(command@)
                    =~= one_by_one(operation, template@, names.take(i + 1)));
                assert((before + one_by_one(operation, template@, names.take(i as int))).push(
                    command@,
                ) =~= before + one_by_one(operation, template@, names.take(i + 1)));
            }
            commands.push(command);
            i += 1;
        }
        proof {
            assert(names.take(packages.len() as int) =~= names);
        }
    }
}

/// Plans the reconciliation of one manager: the commands that remove
/// `removed` and then install `added`, each in the order of names, and
/// whether anything changes. With nothing added and nothing removed there
/// is no command.
pub fn resolve_changes(manager: &Dpm, added: &[String], removed: &[String]) -> (out: Resolution)
    ensures
        out@ == resolution(manager@, texts(added@), texts(removed@)),
        out.changed == (added@.len() > 0 || removed@.len() > 0),
        !out.changed ==> out.commands@.len() == 0,
{
    let batch = manager.batches();
    let mut commands: Vec<Command> = Vec::new();
    proof {
        assert(command_views(commands@) =~= Seq::<CommandView>::empty());
    }
    let leaving = sort_names(removed);
    let coming = sort_names(added);
    push_operation(
        &mut commands,
        Operation::Uninstall,
        manager.uninstall.as_str(),
        leaving.as_slice(),
        batch,
    );
    push_operation(
        &mut commands,
        Operation::Install,
        manager.install.as_str(),
        coming.as_slice(),
        batch,
    );
    proof {
        assert(command_views(commands@) =~= plan(manager@, texts(added@), texts(removed@)));
        lemma_ordered(texts(added@));
        lemma_ordered(texts(removed@));
    }
    Resolution { changed: added.len() > 0 || removed.len() > 0, commands }
}

/// The program that a command line names, and its arguments.
pub open spec fn program_of(words: Seq<Seq<char>>) -> Option<(Seq<char>, Seq<Seq<char>>)> {
    if words.len() > 0 {
        Some((words[0], words.skip(1)))
    } else {
        None
    }
}

/// The text of a program and its arguments.
pub open spec fn program_view(r: Option<(String, Vec<String>)>) -> Option<
    (Seq<char>, Seq<Seq<char>>),
> {
    match r {
        Some((program, arguments)) => Some((program@, texts(arguments@))),
        None => None,
    }
}

/// Splits the words of a command into the program, which is the first
/// word, and its arguments. A command without words names no program.
pub fn program_and_arguments(words: &[String]) -> (r: Option<(String, Vec<String>)>)
    ensures
        program_view(r) == program_of(texts(words@)),
{
    if words.len() == 0 {
        return None;
    }
    let mut arguments: Vec<String> = Vec::new();
    let mut i: usize = 1;
    proof {
        assert(texts(arguments@) =~= texts(words@).subrange(1, 1));
    }
    while i < words.len()
        invariant
            1 <= i <= words.len(),
            texts(arguments@) == texts(words@).subrange(1, i as int),
        decreases words.len() - i,
    {
        proof {
            lemma_texts_push(arguments@, words@[i as int]);
            assert(texts(words@).subrange(1, i as int).push(words@[i as int]@) =~= texts(
                words@,
            ).subrange(1, i + 1));
        }
        arguments.push(words[i].clone());
        i += 1;
    }
    proof {
        assert(texts(words@).subrange(1, words.len() as int) =~= texts(words@).skip(1));
    }
    Some((words[0].clone(), arguments))
}

/// The resolution depends on what is added and removed, not on the order
/// in which the lists name it.
pub proof fn resolution_depends_on_the_names_alone(
    manager: DpmView,
    added: Seq<Seq<char>>,
    removed: Seq<Seq<char>>,
    other_added: Seq<Seq<char>>,
    other_removed: Seq<Seq<char>>,
)
    requires
        added.no_duplicates(),
        removed.no_duplicates(),
        other_added.no_duplicates(),
        other_removed.no_duplicates(),
        added.to_set() == other_added.to_set(),
        removed.to_set() == other_removed.to_set(),
    ensures
        resolution(manager, added, removed) == resolution(manager, other_added, other_removed),
{
    order_depends_on_the_names_alone(added, other_added);
    order_depends_on_the_names_alone(removed, other_removed);
    lemma_ordered(added);
    lemma_ordered(removed);
    lemma_ordered(other_added);
    lemma_ordered(other_removed);
}

/// Package lists are compared as sets: two old lists of the same names and
/// two new lists of the same names take the same resolution, whatever
/// their order and however often they repeat a name.
pub proof fn reconciliation_compares_sets(
    manager: DpmView,
    old: Seq<Seq<char>>,
    new: Seq<Seq<char>>,
    other_old: Seq<Seq<char>>,
    other_new: Seq<Seq<char>>,
)
    requires
        old.to_set() == other_old.to_set(),
        new.to_set() == other_new.to_set(),
    ensures
        resolution(manager, picked(new, old), picked(old, new)) == resolution(
            manager,
            picked(other_new, other_old),
            picked(other_old, other_new),
        ),
{
    lemma_picked(new, old);
    lemma_picked(old, new);
    lemma_picked(other_new, other_old);
    lemma_picked(other_old, other_new);
    resolution_depends_on_the_names_alone(
        manager,
        picked(new, old),
        picked(old, new),
        picked(other_new, other_old),
        picked(other_old, other_new),
    );
}

} // verus!
