//! The data model: one manager's snapshot, and a generation of snapshots.

use vstd::prelude::*;
use crate::text::{lemma_texts_push, texts};

verus! {

/// One package manager's desired state: its package names and the command
/// templates that install and remove them.
#[derive(Clone, Debug)]
pub struct Dpm {
    pub name: Option<String>,
    pub update: Option<String>,
    pub upgrade: Option<String>,
    pub install: String,
    pub uninstall: String,
    pub supports_multi_args: Option<bool>,
    pub packages: Vec<String>,
}

/// What a `Dpm` holds, as plain text.
pub ghost struct DpmView {
    pub name: Option<Seq<char>>,
    pub update: Option<Seq<char>>,
    pub upgrade: Option<Seq<char>>,
    pub install: Seq<char>,
    pub uninstall: Seq<char>,
    pub supports_multi_args: Option<bool>,
    pub packages: Seq<Seq<char>>,
}

/// The text of an optional string.
pub open spec fn optional_text(s: Option<String>) -> Option<Seq<char>> {
    match s {
        Some(t) => Some(t@),
        None => None,
    }
}

impl View for Dpm {
    type V = DpmView;

    open spec fn view(&self) -> DpmView {
        DpmView {
            name: optional_text(self.name),
            update: optional_text(self.update),
            upgrade: optional_text(self.upgrade),
            install: self.install@,
            uninstall: self.uninstall@,
            supports_multi_args: self.supports_multi_args,
            packages: texts(self.packages@),
        }
    }
}

impl DpmView {
    /// Whether one command takes all the packages of an operation. A manager
    /// that does not say is taken to allow it.
    pub open spec fn batches(self) -> bool {
        match self.supports_multi_args {
            Some(b) => b,
            None => true,
        }
    }

    /// The same manager with no package.
    pub open spec fn emptied(self) -> DpmView {
        DpmView { packages: Seq::empty(), ..self }
    }
}

/// The package states of all managers, as of one successful switch.
#[derive(Clone, Debug)]
pub struct Generation {
    pub managers: Vec<Dpm>,
}

/// The views of a list of managers.
pub open spec fn manager_views(v: Seq<Dpm>) -> Seq<DpmView> {
    Seq::new(v.len(), |i: int| v[i]@)
}

/// The views of a list with one more manager are the views of the list with
/// one more view.
pub proof fn lemma_manager_views_push(v: Seq<Dpm>, m: Dpm)
    ensures
        manager_views(v.push(m)) == manager_views(v).push(m@),
{
    assert(manager_views(v.push(m)) =~= manager_views(v).push(m@));
}

impl View for Generation {
    type V = Seq<DpmView>;

    open spec fn view(&self) -> Seq<DpmView> {
        manager_views(self.managers@)
    }
}

/// Copies an optional string.
pub fn copy_optional(s: &Option<String>) -> (out: Option<String>)
    ensures
        optional_text(out) == optional_text(*s),
{
    match s {
        Some(t) => Some(t.clone()),
        None => None,
    }
}

/// Copies a list of strings.
pub fn copy_texts(items: &[String]) -> (out: Vec<String>)
    ensures
        texts(out@) == texts(items@),
{
    let mut out: Vec<String> = Vec::new();
    let mut i: usize = 0;
    while i < items.len()
        invariant
            i <= items.len(),
            texts(out@) == texts(items@).take(i as int),
        decreases items.len() - i,
    {
        proof {
            lemma_texts_push(out@, items@[i as int]);
            assert(texts(items@).take(i as int).push(items@[i as int]@) =~= texts(items@).take(
                i + 1,
            ));
        }
        out.push(items[i].clone());
        i += 1;
    }
    proof {
        assert(texts(items@).take(items.len() as int) =~= texts(items@));
    }
    out
}

impl Dpm {
    /// A copy of this manager.
    pub fn copy(&self) -> (out: Dpm)
        ensures
            out@ == self@,
    {
        Dpm {
            name: copy_optional(&self.name),
            update: copy_optional(&self.update),
            upgrade: copy_optional(&self.upgrade),
            install: self.install.clone(),
            uninstall: self.uninstall.clone(),
            supports_multi_args: self.supports_multi_args,
            packages: copy_texts(self.packages.as_slice()),
        }
    }

    /// A copy of this manager with no package.
    pub fn emptied(&self) -> (out: Dpm)
        ensures
            out@ == self@.emptied(),
    {
        let out = Dpm {
            name: copy_optional(&self.name),
            update: copy_optional(&self.update),
            upgrade: copy_optional(&self.upgrade),
            install: self.install.clone(),
            uninstall: self.uninstall.clone(),
            supports_multi_args: self.supports_multi_args,
            packages: Vec::new(),
        };
        proof {
            assert(texts(out.packages@) =~= Seq::<Seq<char>>::empty());
        }
        out
    }

    /// Whether one command takes all the packages of an operation.
    pub fn batches(&self) -> (b: bool)
        ensures
            b == self@.batches(),
    {
        match self.supports_multi_args {
            Some(b) => b,
            None => true,
        }
    }
}

impl Generation {
    /// A copy of this generation.
    pub fn copy(&self) -> (out: Generation)
        ensures
            out@ == self@,
    {
        let mut managers: Vec<Dpm> = Vec::new();
        let mut i: usize = 0;
        while i < self.managers.len()
            invariant
                i <= self.managers.len(),
                manager_views(managers@) == self@.take(i as int),
            decreases self.managers.len() - i,
        {
            let m = self.managers[i].copy();
            proof {
                lemma_manager_views_push(managers@, m);
                assert(self@.take(i as int).push(self.managers@[i as int]@) =~= self@.take(i + 1));
            }
            managers.push(m);
            i += 1;
        }
        proof {
            assert(self@.take(self.managers.len() as int) =~= self@);
        }
        Generation { managers }
    }
}

} // verus!
