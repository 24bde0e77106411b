use dpmm::model::{Dpm, Generation};
use dpmm::reconcile::Operation;
use dpmm::steps::{copy_command, Step};
use dpmm::workflow::{rollback, switch};

fn strings(items: &[&str]) -> Vec<String> {
    items.iter().map(|s| s.to_string()).collect()
}

fn manager(name: &str, batch: bool, packages: &[&str]) -> Dpm {
    Dpm {
        name: Some(name.to_string()),
        update: None,
        upgrade: None,
        install: format!("{} install $", name),
        uninstall: format!("{} remove $", name),
        supports_multi_args: Some(batch),
        packages: strings(packages),
    }
}

fn shown(steps: &[Step]) -> Vec<String> {
    steps
        .iter()
        .map(|s| match s {
            Step::Idle { manager } => format!("idle {}", manager),
            Step::Run { manager, command } => {
                let kind = match command.operation {
                    Operation::Install => "install",
                    Operation::Uninstall => "uninstall",
                };
                format!("run {} {} [{}]", manager, kind, command.words.join(" "))
            }
            Step::WriteManager { manager } => format!("write manager {}", manager),
            Step::WriteNames => "write names".to_string(),
            Step::WriteGeneration => "write generation".to_string(),
        })
        .collect()
}

#[test]
fn switch_runs_its_commands_and_then_writes_the_generation() {
    let names = strings(&["generation_0.toml"]);
    let latest = Generation {
        managers: vec![manager("apt", true, &["vim", "nano"]), manager("brew", false, &["jq"])],
    };
    let current = Generation {
        managers: vec![manager("apt", true, &["vim", "git", "curl"]), manager("brew", false, &["jq"])],
    };
    let plan = switch(&names, &latest, &current).unwrap();
    assert_eq!(
        shown(&plan.steps()),
        strings(&[
            "run 0 uninstall [apt remove nano]",
            "run 0 install [apt install curl git]",
            "idle 1",
            "write generation",
        ])
    );
}

#[test]
fn switch_without_change_writes_nothing() {
    let names = strings(&["generation_0.toml"]);
    let latest = Generation { managers: vec![manager("apt", true, &["vim"])] };
    let plan = switch(&names, &latest, &latest).unwrap();
    assert_eq!(shown(&plan.steps()), strings(&["idle 0"]));
}

#[test]
fn switch_without_managers_has_no_step() {
    let plan = switch(&[], &Generation { managers: vec![] }, &Generation { managers: vec![] }).unwrap();
    assert!(plan.steps().is_empty());
}

#[test]
fn rollback_writes_each_manager_after_its_commands_and_the_names_last() {
    let latest = Generation {
        managers: vec![manager("apt", false, &["vim", "git", "htop"]), manager("brew", true, &["jq"])],
    };
    let target = Generation {
        managers: vec![manager("apt", false, &["vim"]), manager("brew", true, &["jq"])],
    };
    let plan = rollback(&latest, &target).unwrap();
    assert_eq!(
        shown(&plan.steps()),
        strings(&[
            "run 0 uninstall [apt remove git]",
            "run 0 uninstall [apt remove htop]",
            "write manager 0",
            "idle 1",
            "write manager 1",
            "write names",
        ])
    );
}

#[test]
fn command_is_copied() {
    let latest = Generation { managers: vec![manager("apt", true, &[])] };
    let current = Generation { managers: vec![manager("apt", true, &["vim"])] };
    let plan = switch(&strings(&["generation_0.toml"]), &latest, &current).unwrap();
    let copy = copy_command(&plan.resolutions[0].commands[0]);
    assert_eq!(copy.operation, Operation::Install);
    assert_eq!(copy.words, strings(&["apt", "install", "vim"]));
}
