//! The workflows: what a switch, a rollback and an update or upgrade take,
//! as plans that the caller carries out.

use vstd::prelude::*;
use vstd::string::*;
use crate::diff::{contains_name, diff_unique, diff_with_self_is_empty, picked};
use crate::model::{manager_views, optional_text, Dpm, DpmView, Generation};
use crate::names::{file_name, generation_file_name, name_suffix, MAX_GENERATION};
use crate::reconcile::{
    plan, resolution, resolve_changes, CommandView, Resolution, ResolutionView,
};
use crate::store::{get_gen_file, ledger, next_generation, next_number, LookupError};
use crate::text::{lemma_texts_push, split_whitespace, texts, tokens};

verus! {

/// The index of the first manager named `name`, or the length of the list
/// where there is none.
pub open spec fn lead(managers: Seq<DpmView>, name: Option<Seq<char>>) -> int
    decreases managers.len(),
{
    if managers.len() == 0 || managers[0].name == name {
        0
    } else {
        1 + lead(managers.drop_first(), name)
    }
}

/// The manager that corresponds to the name: the first that bears it.
pub open spec fn corresponding(managers: Seq<DpmView>, name: Option<Seq<char>>) -> Option<
    DpmView,
> {
    if lead(managers, name) < managers.len() {
        Some(managers[lead(managers, name)])
    } else {
        None
    }
}

/// The packages that `latest` records for the manager named `name`: none
/// for a manager that it does not know.
pub open spec fn recorded_packages(latest: Seq<DpmView>, name: Option<Seq<char>>) -> Seq<
    Seq<char>,
> {
    match corresponding(latest, name) {
        Some(m) => m.packages,
        None => Seq::empty(),
    }
}

/// What it takes to bring `manager` from what `latest` records for it to
/// what it now asks for.
pub open spec fn reconciled(latest: Seq<DpmView>, manager: DpmView) -> ResolutionView {
    let recorded = recorded_packages(latest, manager.name);
    resolution(manager, picked(manager.packages, recorded), picked(recorded, manager.packages))
}

/// `reconciled` for each manager of `current`, in order.
pub open spec fn reconciled_all(latest: Seq<DpmView>, current: Seq<DpmView>) -> Seq<
    ResolutionView,
> {
    Seq::new(current.len(), |i: int| reconciled(latest, current[i]))
}

/// Whether one of the resolutions changes a package.
pub open spec fn any_changed(resolutions: Seq<ResolutionView>) -> bool {
    exists|i: int| 0 <= i < resolutions.len() && (#[trigger] resolutions[i]).changed
}

/// The views of a list of resolutions.
pub open spec fn resolution_views(v: Seq<Resolution>) -> Seq<ResolutionView> {
    Seq::new(v.len(), |i: int| v[i]@)
}

/// `lead` is the index of the first manager with that name.
pub proof fn lemma_lead(managers: Seq<DpmView>, name: Option<Seq<char>>, k: int)
    requires
        0 <= k <= managers.len(),
        forall|j: int| 0 <= j < k ==> (#[trigger] managers[j]).name != name,
        k == managers.len() || managers[k].name == name,
    ensures
        lead(managers, name) == k,
    decreases k,
{
    if k > 0 {
        let t = managers.drop_first();
        assert forall|j: int| 0 <= j < k - 1 implies (#[trigger] t[j]).name != name by {
            assert(t[j] == managers[j + 1]);
        }
        lemma_lead(t, name, k - 1);
    }
}

/// Whether two optional names are the same.
pub fn same_name(a: &Option<String>, b: &Option<String>) -> (r: bool)
    ensures
        r == (optional_text(*a) == optional_text(*b)),
{
    match (a, b) {
        (Some(x), Some(y)) => *x == *y,
        (None, None) => true,
        _ => false,
    }
}

/// The place of the first manager named `name`.
pub fn find_manager(managers: &[Dpm], name: &Option<String>) -> (r: Option<usize>)
    ensures
        match r {
            Some(i) => i < managers.len() && i == lead(
                manager_views(managers@),
                optional_text(*name),
            ),
            None => lead(manager_views(managers@), optional_text(*name)) == managers.len(),
        },
{
    let mut i: usize = 0;
    while i < managers.len() && !same_name(&managers[i].name, name)
        invariant
            i <= managers.len(),
            forall|j: int|
                0 <= j < i ==> (#[trigger] manager_views(managers@)[j]).name != optional_text(
                    *name,
                ),
        decreases managers.len() - i,
    {
        i += 1;
    }
    proof {
        if i < managers.len() {
            assert(manager_views(managers@)[i as int].name == optional_text(*name));
        }
        lemma_lead(manager_views(managers@), optional_text(*name), i as int);
    }
    if i < managers.len() {
        Some(i)
    } else {
        None
    }
}

/// Plans the reconciliation of `manager` against the manager of its name in
/// `latest`. A manager that `latest` does not know has all its packages
/// installed.
pub fn reconcile(latest: &Generation, manager: &Dpm) -> (out: Resolution)
    ensures
        out@ == reconciled(latest@, manager@),
{
    let (added, removed) = match find_manager(latest.managers.as_slice(), &manager.name) {
        Some(i) => {
            proof {
                assert(latest@[i as int] == latest.managers@[i as int]@);
            }
            diff_unique(latest.managers[i].packages.as_slice(), manager.packages.as_slice())
        },
        None => {
            let nothing: Vec<String> = Vec::new();
            proof {
                assert(texts(nothing@) =~= Seq::<Seq<char>>::empty());
            }
            diff_unique(nothing.as_slice(), manager.packages.as_slice())
        },
    };
    resolve_changes(manager, added.as_slice(), removed.as_slice())
}

/// Plans the reconciliation of every manager of `current` against `latest`,
/// and says whether any of them changes a package.
pub fn reconcile_all(latest: &Generation, current: &Generation) -> (out: (Vec<Resolution>, bool))
    ensures
        resolution_views(out.0@) == reconciled_all(latest@, current@),
        out.1 == any_changed(reconciled_all(latest@, current@)),
{
    let mut resolutions: Vec<Resolution> = Vec::new();
    let mut changed = false;
    let mut i: usize = 0;
    let ghost all = reconciled_all(latest@, current@);
    while i < current.managers.len()
        invariant
            i <= current.managers.len(),
            all == reconciled_all(latest@, current@),
            resolution_views(resolutions@) == all.take(i as int),
            changed == any_changed(all.take(i as int)),
        decreases current.managers.len() - i,
    {
        let r = reconcile(latest, &current.managers[i]);
        proof {
            assert(current@[i as int] == current.managers@[i as int]@);
            assert(resolution_views(resolutions@.push(r)) =~= all.take(i as int).push(r@));
            assert(all.take(i as int).push(r@) =~= all.take(i + 1));
            let shorter = all.take(i as int);
            let longer = all.take(i + 1);
            if any_changed(shorter) {
                let k = choose|k: int| 0 <= k < shorter.len() && (#[trigger] shorter[k]).changed;
                assert(longer[k].changed);
            }
            if r.changed {
                assert(longer[i as int].changed);
            }
            if any_changed(longer) {
                let k = choose|k: int| 0 <= k < longer.len() && (#[trigger] longer[k]).changed;
                if k < i {
                    assert(shorter[k].changed);
                }
            }
        }
        changed = changed || r.changed;
        resolutions.push(r);
        i += 1;
    }
    proof {
        assert(all.take(current.managers.len() as int) =~= all);
    }
    (resolutions, changed)
}

/// The generation that a switch writes.
#[derive(Clone, Debug)]
pub struct Append {
    pub number: u32,
    pub file: String,
    pub generation: Generation,
}

/// What a switch takes: for each configured manager, in order, its
/// resolution; and the generation to write once every command has
/// succeeded, if there is one.
#[derive(Clone, Debug)]
pub struct Switch {
    pub resolutions: Vec<Resolution>,
    pub append: Option<Append>,
}

/// What a switch appends to the store that lists `names`: nothing where no
/// manager changes a package; else the configured state, under the next
/// number.
pub open spec fn switch_appends(
    names: Seq<Seq<char>>,
    latest: Seq<DpmView>,
    current: Seq<DpmView>,
) -> Option<(nat, Seq<DpmView>)> {
    if any_changed(reconciled_all(latest, current)) {
        Some((next_number(names), current))
    } else {
        None
    }
}

/// What `append` holds, as plain values.
pub open spec fn append_view(append: Option<Append>) -> Option<(nat, Seq<DpmView>)> {
    match append {
        Some(a) => Some((a.number as nat, a.generation@)),
        None => None,
    }
}

/// Plans a switch from `latest`, the newest generation of the store that
/// lists `names`, to the configured state `current`. Fails where a
/// generation is to be written and the numbers are used up.
pub fn switch(names: &[String], latest: &Generation, current: &Generation) -> (r: Result<
    Switch,
    LookupError,
>)
    ensures
        match r {
            Ok(s) => {
                &&& resolution_views(s.resolutions@) == reconciled_all(latest@, current@)
                &&& append_view(s.append) == switch_appends(texts(names@), latest@, current@)
                &&& s.append matches Some(a) ==> a.file@ == file_name(a.number as nat)
                    && a.number <= MAX_GENERATION
            },
            Err(e) => {
                &&& e == LookupError::NumbersExhausted
                &&& any_changed(reconciled_all(latest@, current@))
                &&& next_number(texts(names@)) > MAX_GENERATION
            },
        },
{
    let (resolutions, changed) = reconcile_all(latest, current);
    if !changed {
        return Ok(Switch { resolutions, append: None });
    }
    match next_generation(names) {
        Ok(number) => {
            let append = Append {
                number,
                file: generation_file_name(number),
                generation: current.copy(),
            };
            Ok(Switch { resolutions, append: Some(append) })
        },
        Err(e) => Err(e),
    }
}

/// Why a generation cannot be made the configuration.
#[derive(Clone, Copy, Debug, PartialEq, Eq, Structural)]
pub enum ConfigError {
    /// A manager of the generation has no name to file it under.
    UnnamedManager,
}

/// What a rollback takes: for each manager of the target, in order, its
/// resolution and then the writing of that manager as its configuration;
/// at the end the writing of the managers' names.
#[derive(Clone, Debug)]
pub struct Rollback {
    pub resolutions: Vec<Resolution>,
    pub configuration: Generation,
    pub managers: Vec<String>,
}

/// Whether every manager has a name.
pub open spec fn all_named(managers: Seq<DpmView>) -> bool {
    forall|i: int| 0 <= i < managers.len() ==> (#[trigger] managers[i]).name is Some
}

/// The managers' names, in order.
pub open spec fn manager_names(managers: Seq<DpmView>) -> Seq<Seq<char>> {
    Seq::new(managers.len(), |i: int| managers[i].name->0)
}

/// The configuration that a rollback to `target` leaves: the target's
/// managers.
pub open spec fn rolled_back(target: Seq<DpmView>) -> Seq<DpmView> {
    target
}

/// The names of the managers of `generation`, if each has one.
pub fn names_of(generation: &Generation) -> (r: Option<Vec<String>>)
    ensures
        match r {
            Some(names) => all_named(generation@) && texts(names@) == manager_names(generation@),
            None => !all_named(generation@),
        },
{
    let mut names: Vec<String> = Vec::new();
    let mut i: usize = 0;
    while i < generation.managers.len()
        invariant
            i <= generation.managers.len(),
            all_named(generation@.take(i as int)),
            texts(names@) == manager_names(generation@).take(i as int),
        decreases generation.managers.len() - i,
    {
        proof {
            assert(generation@[i as int] == generation.managers@[i as int]@);
        }
        match &generation.managers[i].name {
            Some(name) => {
                let name = name.clone();
                proof {
                    lemma_texts_push(names@, name);
                    assert(manager_names(generation@).take(i as int).push(name@)
                        =~= manager_names(generation@).take(i + 1));
                    assert forall|k: int| 0 <= k < i + 1 implies (#[trigger] generation@.take(
                        i + 1,
                    )[k]).name is Some by {
                        if k < i {
                            assert(generation@.take(i as int)[k].name is Some);
                        }
                    }
                }
                names.push(name);
            },
            None => {
                return None;
            },
        }
        i += 1;
    }
    proof {
        assert(generation@.take(generation.managers.len() as int) =~= generation@);
        assert(manager_names(generation@).take(generation.managers.len() as int)
            =~= manager_names(generation@));
    }
    Some(names)
}

/// Plans a rollback from `latest`, the newest generation, to `target`.
/// Fails, before any command is planned, where a manager of the target has
/// no name.
pub fn rollback(latest: &Generation, target: &Generation) -> (r: Result<Rollback, ConfigError>)
    ensures
        match r {
            Ok(p) => {
                &&& all_named(target@)
                &&& resolution_views(p.resolutions@) == reconciled_all(latest@, target@)
                &&& p.configuration@ == rolled_back(target@)
                &&& texts(p.managers@) == manager_names(target@)
            },
            Err(e) => e == ConfigError::UnnamedManager && !all_named(target@),
        },
{
    match names_of(target) {
        Some(managers) => {
            let (resolutions, _) = reconcile_all(latest, target);
            Ok(Rollback { resolutions, configuration: target.copy(), managers })
        },
        None => Err(ConfigError::UnnamedManager),
    }
}

/// Whether no two managers of the list have one name.
pub open spec fn distinct_names(managers: Seq<DpmView>) -> bool {
    forall|i: int, j: int|
        0 <= i < j < managers.len() ==> (#[trigger] managers[i]).name != (
        #[trigger] managers[j]).name
}

/// A resolution that changes nothing and runs nothing.
pub open spec fn idle() -> ResolutionView {
    ResolutionView { changed: false, commands: Seq::empty() }
}

/// `lead` lies within the list; before it no manager has the name, at it
/// one has.
pub proof fn lemma_lead_bounds(managers: Seq<DpmView>, name: Option<Seq<char>>)
    ensures
        0 <= lead(managers, name) <= managers.len(),
        forall|j: int| 0 <= j < lead(managers, name) ==> (#[trigger] managers[j]).name != name,
        lead(managers, name) < managers.len() ==> managers[lead(managers, name)].name == name,
    decreases managers.len(),
{
    if !(managers.len() == 0 || managers[0].name == name) {
        let t = managers.drop_first();
        lemma_lead_bounds(t, name);
        assert forall|j: int| 0 <= j < lead(managers, name) implies (
        #[trigger] managers[j]).name != name by {
            if j > 0 {
                assert(managers[j] == t[j - 1]);
            }
        }
        if lead(managers, name) < managers.len() {
            assert(managers[lead(managers, name)] == t[lead(t, name)]);
        }
    }
}

/// A switch to the state that the newest generation records changes no
/// package, runs no command and writes no generation.
pub proof fn switch_to_recorded_state_is_idle(names: Seq<Seq<char>>, recorded: Seq<DpmView>)
    requires
        distinct_names(recorded),
    ensures
        forall|i: int|
            0 <= i < recorded.len() ==> #[trigger] reconciled_all(recorded, recorded)[i]
                == idle(),
        !any_changed(reconciled_all(recorded, recorded)),
        switch_appends(names, recorded, recorded) is None,
{
    assert forall|i: int| 0 <= i < recorded.len() implies #[trigger] reconciled_all(
        recorded,
        recorded,
    )[i] == idle() by {
        let m = recorded[i];
        lemma_lead_bounds(recorded, m.name);
        let k = lead(recorded, m.name);
        if k > i {
            assert(recorded[i].name != m.name);
        }
        if k < i {
            assert(recorded[k].name != recorded[i].name);
        }
        assert(k == i);
        diff_with_self_is_empty(m.packages);
        assert(plan(m, Seq::empty(), Seq::empty()) =~= Seq::<CommandView>::empty());
    }
}

/// A switch in which no manager changes a package writes no generation;
/// one in which a manager does writes the configured state under the next
/// number.
pub proof fn switch_appends_only_on_change(
    names: Seq<Seq<char>>,
    latest: Seq<DpmView>,
    current: Seq<DpmView>,
)
    ensures
        (forall|i: int| 0 <= i < current.len() ==> !reconciled(latest, #[trigger] current[i]).changed)
            ==> switch_appends(names, latest, current) is None,
        (exists|i: int| 0 <= i < current.len() && reconciled(latest, #[trigger] current[i]).changed)
            ==> switch_appends(names, latest, current) == Some((next_number(names), current)),
{
    let all = reconciled_all(latest, current);
    if any_changed(all) {
        let k = choose|k: int| 0 <= k < all.len() && (#[trigger] all[k]).changed;
        assert(reconciled(latest, current[k]).changed);
    }
    if exists|i: int| 0 <= i < current.len() && reconciled(latest, #[trigger] current[i]).changed {
        let i = choose|i: int|
            0 <= i < current.len() && reconciled(latest, #[trigger] current[i]).changed;
        assert(all[i].changed);
    }
}

/// A rollback leaves the target's managers as the configuration, and the
/// switch that follows it writes, if it writes a generation, one that holds
/// exactly the target's managers, under the next number.
pub proof fn switch_after_rollback_records_target(
    names: Seq<Seq<char>>,
    latest: Seq<DpmView>,
    target: Seq<DpmView>,
)
    ensures
        rolled_back(target) == target,
        reconciled_all(latest, rolled_back(target)) == reconciled_all(latest, target),
        switch_appends(names, latest, rolled_back(target)) matches Some(a) ==> a.0 == next_number(
            names,
        ) && a.1 == target,
        switch_appends(names, latest, rolled_back(target)) is None <==> !any_changed(
            reconciled_all(latest, target),
        ),
{
}

/// The file that a rollback reads. For a generation given by its
/// identifier, the file of that name, which the store must hold; without
/// one, the file of the generation just before the newest.
pub open spec fn rollback_target(names: Seq<Seq<char>>, generation: Option<Seq<char>>) -> Result<
    Seq<char>,
    LookupError,
> {
    match generation {
        Some(identifier) => if names.contains(identifier + name_suffix()) {
            Ok(identifier + name_suffix())
        } else {
            Err(LookupError::UnknownGeneration)
        },
        None => if ledger(names).len() > 1 {
            Ok(ledger(names)[1].name)
        } else {
            Err(LookupError::NoEarlierGeneration)
        },
    }
}

/// The text of a file name or the error in its place.
pub open spec fn target_text(r: Result<String, LookupError>) -> Result<Seq<char>, LookupError> {
    match r {
        Ok(name) => Ok(name@),
        Err(e) => Err(e),
    }
}

/// Finds the file that a rollback reads among `names`, the files of the
/// store.
pub fn rollback_file(names: &[String], generation: &Option<String>) -> (r: Result<
    String,
    LookupError,
>)
    ensures
        target_text(r) == rollback_target(texts(names@), optional_text(*generation)),
{
    match generation {
        Some(identifier) => {
            let mut file = identifier.clone();
            proof {
                reveal_strlit(".toml");
                assert(".toml"@ =~= name_suffix());
            }
            file.append(".toml");
            if contains_name(names, &file) {
                Ok(file)
            } else {
                Err(LookupError::UnknownGeneration)
            }
        },
        None => match get_gen_file(names, 1) {
            Some((name, _)) => Ok(name),
            None => Err(LookupError::NoEarlierGeneration),
        },
    }
}

/// The two kinds of upkeep that a manager may have a command for.
#[derive(Clone, Copy, Debug, PartialEq, Eq, Structural)]
pub enum Upkeep {
    Update,
    Upgrade,
}

/// An upkeep command: the line as the manager gives it, and its words.
#[derive(Clone, Debug)]
pub struct UpkeepCommand {
    pub line: String,
    pub words: Vec<String>,
}

/// The selector that stands for every manager.
pub open spec fn every_manager() -> Seq<char> {
    seq!['a', 'l', 'l']
}

/// The line that `manager` runs for `kind`, where the selector names it
/// and it has one.
pub open spec fn upkeep_line(manager: DpmView, selector: Seq<char>, kind: Upkeep) -> Option<
    Seq<char>,
> {
    if manager.name == Some(selector) || selector == every_manager() {
        match kind {
            Upkeep::Update => manager.update,
            Upkeep::Upgrade => manager.upgrade,
        }
    } else {
        None
    }
}

/// The lines of the managers that have one, in the managers' order.
pub open spec fn upkeep_lines(managers: Seq<DpmView>, selector: Seq<char>, kind: Upkeep) -> Seq<
    Seq<char>,
>
    decreases managers.len(),
{
    if managers.len() == 0 {
        Seq::empty()
    } else {
        let before = upkeep_lines(managers.drop_last(), selector, kind);
        match upkeep_line(managers.last(), selector, kind) {
            Some(line) => before.push(line),
            None => before,
        }
    }
}

/// The lines of a list of upkeep commands.
pub open spec fn command_lines(v: Seq<UpkeepCommand>) -> Seq<Seq<char>> {
    Seq::new(v.len(), |i: int| v[i].line@)
}

/// Whether `selector` names `manager`, or every manager.
pub fn selects(manager: &Dpm, selector: &str) -> (r: bool)
    ensures
        r == (manager@.name == Some(selector@) || selector@ == every_manager()),
{
    proof {
        reveal_strlit("all");
        assert("all"@ =~= every_manager());
    }
    let every = String::from_str("all");
    let wanted = String::from_str(selector);
    if wanted == every {
        return true;
    }
    match &manager.name {
        Some(name) => *name == wanted,
        None => false,
    }
}

/// The update or upgrade commands of the managers that `selector` names,
/// in the managers' order. A manager without such a command gives none.
pub fn upkeep(current: &Generation, selector: &str, kind: Upkeep) -> (out: Vec<UpkeepCommand>)
    ensures
        command_lines(out@) == upkeep_lines(current@, selector@, kind),
        forall|i: int|
            0 <= i < out.len() ==> texts((#[trigger] out[i]).words@) == tokens(out[i].line@),
{
    let mut out: Vec<UpkeepCommand> = Vec::new();
    let mut i: usize = 0;
    proof {
        assert(command_lines(out@) =~= Seq::<Seq<char>>::empty());
    }
    while i < current.managers.len()
        invariant
            i <= current.managers.len(),
            command_lines(out@) == upkeep_lines(current@.take(i as int), selector@, kind),
            forall|k: int|
                0 <= k < out.len() ==> texts((#[trigger] out[k]).words@) == tokens(out[k].line@),
        decreases current.managers.len() - i,
    {
        let manager = &current.managers[i];
        proof {
            assert(current@.take(i + 1).drop_last() =~= current@.take(i as int));
            assert(current@.take(i + 1).last() == manager@);
        }
        if selects(manager, selector) {
            let template = match kind {
                Upkeep::Update => &manager.update,
                Upkeep::Upgrade => &manager.upgrade,
            };
            match template {
                Some(line) => {
                    let command = UpkeepCommand {
                        line: line.clone(),
                        words: split_whitespace(line.as_str()),
                    };
                    proof {
                        assert(command_lines(out@.push(command)) =~= command_lines(out@).push(
                            command.line@,
                        ));
                    }
                    out.push(command);
                },
                None => {},
            }
        }
        i += 1;
    }
    proof {
        assert(current@.take(current.managers.len() as int) =~= current@);
    }
    out
}

} // verus!
