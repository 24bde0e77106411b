//! The generation store: which generations a list of file names holds, in
//! what order, and which number comes next.

use vstd::prelude::*;
use crate::names::{
    extract_gen, file_name, file_name_gives_its_number, generation_number, MAX_GENERATION,
};
use crate::model::{manager_views, lemma_manager_views_push, Dpm, DpmView, Generation};
use crate::text::texts;

verus! {

/// A generation as the store lists it: its sequence number and the name of
/// the file that holds it.
#[derive(Clone, Debug)]
pub struct GenerationFile {
    pub number: u32,
    pub name: String,
}

/// What a `GenerationFile` holds, as plain values.
pub ghost struct GenerationFileView {
    pub number: u32,
    pub name: Seq<char>,
}

impl View for GenerationFile {
    type V = GenerationFileView;

    open spec fn view(&self) -> GenerationFileView {
        GenerationFileView { number: self.number, name: self.name@ }
    }
}

/// The views of a list of generation files.
pub open spec fn file_views(v: Seq<GenerationFile>) -> Seq<GenerationFileView> {
    Seq::new(v.len(), |i: int| v[i]@)
}

/// The generations among `names`, in the order of `names`: a name that
/// gives no sequence number is left out.
pub open spec fn listed(names: Seq<Seq<char>>) -> Seq<GenerationFileView>
    decreases names.len(),
{
    if names.len() == 0 {
        Seq::empty()
    } else {
        let before = listed(names.drop_last());
        match generation_number(names.last()) {
            Some(number) => before.push(GenerationFileView { number, name: names.last() }),
            None => before,
        }
    }
}

/// How many leading entries of `s` have a number above `number`.
pub open spec fn rank(s: Seq<GenerationFileView>, number: u32) -> int
    decreases s.len(),
{
    if s.len() == 0 || s[0].number <= number {
        0
    } else {
        1 + rank(s.drop_first(), number)
    }
}

/// `entries` ordered by number, the highest first; of two entries with one
/// number, the later of `entries` first.
pub open spec fn newest_first(entries: Seq<GenerationFileView>) -> Seq<GenerationFileView>
    decreases entries.len(),
{
    if entries.len() == 0 {
        Seq::empty()
    } else {
        let before = newest_first(entries.drop_last());
        before.insert(rank(before, entries.last().number), entries.last())
    }
}

/// The generations among `names`, newest first.
pub open spec fn ledger(names: Seq<Seq<char>>) -> Seq<GenerationFileView> {
    newest_first(listed(names))
}

/// Whether no entry of `s` has a higher number than one before it.
pub open spec fn descending(s: Seq<GenerationFileView>) -> bool {
    forall|i: int, j: int| 0 <= i < j < s.len() ==> s[i].number >= s[j].number
}

/// The number of the generation that an append writes: one more than the
/// highest, or 0 for an empty store.
pub open spec fn next_number(names: Seq<Seq<char>>) -> nat {
    if ledger(names).len() == 0 {
        0
    } else {
        (ledger(names)[0].number + 1) as nat
    }
}

/// `rank` is the index of the first entry that is not above `number`.
pub proof fn lemma_rank(s: Seq<GenerationFileView>, number: u32, k: int)
    requires
        0 <= k <= s.len(),
        forall|j: int| 0 <= j < k ==> (#[trigger] s[j]).number > number,
        k == s.len() || s[k].number <= number,
    ensures
        rank(s, number) == k,
    decreases k,
{
    if k > 0 {
        let t = s.drop_first();
        assert forall|j: int| 0 <= j < k - 1 implies (#[trigger] t[j]).number > number by {
            assert(t[j] == s[j + 1]);
        }
        lemma_rank(t, number, k - 1);
    }
}

/// `rank` lies within `s`, above it stand only higher numbers, at it none.
pub proof fn lemma_rank_bounds(s: Seq<GenerationFileView>, number: u32)
    ensures
        0 <= rank(s, number) <= s.len(),
        forall|j: int| 0 <= j < rank(s, number) ==> (#[trigger] s[j]).number > number,
        rank(s, number) == s.len() || s[rank(s, number)].number <= number,
    decreases s.len(),
{
    if !(s.len() == 0 || s[0].number <= number) {
        let t = s.drop_first();
        lemma_rank_bounds(t, number);
        assert forall|j: int| 0 <= j < rank(s, number) implies (#[trigger] s[j]).number
            > number by {
            if j > 0 {
                assert(s[j] == t[j - 1]);
            }
        }
        if rank(s, number) != s.len() {
            assert(s[rank(s, number)] == t[rank(t, number)]);
        }
    }
}

/// Ordering keeps every entry, as often as it stood, and puts no entry
/// before one with a higher number.
pub proof fn lemma_newest_first(entries: Seq<GenerationFileView>)
    ensures
        newest_first(entries).len() == entries.len(),
        newest_first(entries).to_multiset() == entries.to_multiset(),
        descending(newest_first(entries)),
    decreases entries.len(),
{
    broadcast use vstd::seq_lib::to_multiset_insert, vstd::seq_lib::to_multiset_build;

    if entries.len() > 0 {
        let init = entries.drop_last();
        let before = newest_first(init);
        let e = entries.last();
        let at = rank(before, e.number);
        lemma_newest_first(init);
        lemma_rank_bounds(before, e.number);
        assert(init.push(e) =~= entries);
        let after = before.insert(at, e);
        assert forall|i: int, j: int| 0 <= i < j < after.len() implies after[i].number
            >= after[j].number by {
            if i < at && j > at {
                assert(after[i] == before[i]);
                assert(after[j] == before[j - 1]);
                if at < j - 1 {
                    assert(before[at].number >= before[j - 1].number);
                }
            } else if i < at && j == at {
                assert(after[i] == before[i]);
            } else if i < at && j < at {
                assert(after[i] == before[i]);
                assert(after[j] == before[j]);
            } else if i == at {
                assert(after[j] == before[j - 1]);
                if at < j - 1 {
                    assert(before[at].number >= before[j - 1].number);
                }
            } else {
                assert(after[i] == before[i - 1]);
                assert(after[j] == before[j - 1]);
            }
        }
    } else {
        assert(newest_first(entries) =~= entries);
    }
}

/// The views of a list with one more file at `at`.
pub proof fn lemma_file_views_insert(v: Seq<GenerationFile>, at: int, f: GenerationFile)
    requires
        0 <= at <= v.len(),
    ensures
        file_views(v.insert(at, f)) == file_views(v).insert(at, f@),
{
    assert(file_views(v.insert(at, f)) =~= file_views(v).insert(at, f@));
}

/// Lists the generations among `names`, newest first. A name that gives no
/// sequence number is left out.
pub fn generation_files(names: &[String]) -> (out: Vec<GenerationFile>)
    ensures
        file_views(out@) == ledger(texts(names@)),
        descending(file_views(out@)),
        file_views(out@).to_multiset() == listed(texts(names@)).to_multiset(),
{
    let mut out: Vec<GenerationFile> = Vec::new();
    let mut i: usize = 0;
    proof {
        assert(file_views(out@) =~= Seq::<GenerationFileView>::empty());
    }
    while i < names.len()
        invariant
            i <= names.len(),
            file_views(out@) == ledger(texts(names@).take(i as int)),
        decreases names.len() - i,
    {
        proof {
            let next = texts(names@).take(i + 1);
            assert(next.drop_last() =~= texts(names@).take(i as int));
            assert(next.last() == names@[i as int]@);
        }
        match extract_gen(names[i].as_str()) {
            Some(number) => {
                let mut at: usize = 0;
                while at < out.len() && out[at].number > number
                    invariant
                        at <= out.len(),
                        forall|j: int|
                            0 <= j < at ==> (#[trigger] file_views(out@)[j]).number > number,
                    decreases out.len() - at,
                {
                    at += 1;
                }
                let file = GenerationFile { number, name: names[i].clone() };
                proof {
                    if at < out.len() {
                        assert(file_views(out@)[at as int].number <= number);
                    }
                    lemma_rank(file_views(out@), number, at as int);
                    lemma_file_views_insert(out@, at as int, file);
                    assert(listed(texts(names@).take(i + 1)).drop_last() =~= listed(
                        texts(names@).take(i as int),
                    ));
                }
                out.insert(at, file);
            },
            None => {},
        }
        i += 1;
    }
    proof {
        assert(texts(names@).take(names.len() as int) =~= texts(names@));
        lemma_newest_first(listed(texts(names@)));
    }
    out
}

/// The generation that stands `idx` places behind the newest among `names`
/// (0 for the newest itself): its file's name and its number. Nothing where
/// `names` holds no more than `idx` generations.
pub fn get_gen_file(names: &[String], idx: usize) -> (r: Option<(String, u32)>)
    ensures
        match r {
            Some((name, number)) => idx < ledger(texts(names@)).len() && ledger(
                texts(names@),
            )[idx as int] == (GenerationFileView { number, name: name@ }),
            None => idx >= ledger(texts(names@)).len(),
        },
{
    let files = generation_files(names);
    if idx < files.len() {
        proof {
            assert(file_views(files@)[idx as int] == files@[idx as int]@);
        }
        Some((files[idx].name.clone(), files[idx].number))
    } else {
        None
    }
}

/// Why a generation was not found.
#[derive(Clone, Copy, Debug, PartialEq, Eq, Structural)]
pub enum LookupError {
    /// The store holds no file for the generation that was asked for.
    UnknownGeneration,
    /// The store holds no generation before the newest.
    NoEarlierGeneration,
    /// The sequence numbers that a file name can give are used up.
    NumbersExhausted,
}

/// The index of the first entry of `s` with the number `number`, or the
/// length of `s` where there is none.
pub open spec fn first_with(s: Seq<GenerationFileView>, number: u32) -> int
    decreases s.len(),
{
    if s.len() == 0 || s[0].number == number {
        0
    } else {
        1 + first_with(s.drop_first(), number)
    }
}

/// `first_with` is the index of the first entry with that number.
pub proof fn lemma_first_with(s: Seq<GenerationFileView>, number: u32, k: int)
    requires
        0 <= k <= s.len(),
        forall|j: int| 0 <= j < k ==> (#[trigger] s[j]).number != number,
        k == s.len() || s[k].number == number,
    ensures
        first_with(s, number) == k,
    decreases k,
{
    if k > 0 {
        let t = s.drop_first();
        assert forall|j: int| 0 <= j < k - 1 implies (#[trigger] t[j]).number != number by {
            assert(t[j] == s[j + 1]);
        }
        lemma_first_with(t, number, k - 1);
    }
}

/// The name of the file that holds generation `number`: of several, the one
/// that the list gives first.
pub fn find_generation(names: &[String], number: u32) -> (r: Result<String, LookupError>)
    ensures
        match r {
            Ok(name) => {
                let at = first_with(ledger(texts(names@)), number);
                at < ledger(texts(names@)).len() && ledger(texts(names@))[at].name == name@
            },
            Err(e) => e == LookupError::UnknownGeneration && first_with(
                ledger(texts(names@)),
                number,
            ) == ledger(texts(names@)).len(),
        },
{
    let files = generation_files(names);
    let mut i: usize = 0;
    while i < files.len() && files[i].number != number
        invariant
            i <= files.len(),
            forall|j: int| 0 <= j < i ==> (#[trigger] file_views(files@)[j]).number != number,
        decreases files.len() - i,
    {
        i += 1;
    }
    proof {
        if i < files.len() {
            assert(file_views(files@)[i as int].number == number);
        }
        lemma_first_with(file_views(files@), number, i as int);
    }
    if i < files.len() {
        Ok(files[i].name.clone())
    } else {
        Err(LookupError::UnknownGeneration)
    }
}

/// The number under which the next generation is written: one more than
/// the newest, or 0 where there is none. An error where that number could
/// not be read back from a file's name.
pub fn next_generation(names: &[String]) -> (r: Result<u32, LookupError>)
    ensures
        match r {
            Ok(n) => n == next_number(texts(names@)) && n <= MAX_GENERATION,
            Err(e) => e == LookupError::NumbersExhausted && next_number(texts(names@))
                > MAX_GENERATION,
        },
{
    match get_gen_file(names, 0) {
        Some((_, number)) => {
            if number < MAX_GENERATION {
                Ok(number + 1)
            } else {
                Err(LookupError::NumbersExhausted)
            }
        },
        None => Ok(0),
    }
}

/// Each manager of the list, with no package.
pub open spec fn all_emptied(managers: Seq<DpmView>) -> Seq<DpmView> {
    Seq::new(managers.len(), |i: int| managers[i].emptied())
}

/// The generation before anything was installed: every manager, with no
/// package.
pub fn baseline(managers: &[Dpm]) -> (out: Generation)
    ensures
        out@ == all_emptied(manager_views(managers@)),
{
    let mut emptied: Vec<Dpm> = Vec::new();
    let mut i: usize = 0;
    while i < managers.len()
        invariant
            i <= managers.len(),
            manager_views(emptied@) == all_emptied(manager_views(managers@)).take(i as int),
        decreases managers.len() - i,
    {
        let m = managers[i].emptied();
        proof {
            lemma_manager_views_push(emptied@, m);
            assert(all_emptied(manager_views(managers@)).take(i as int).push(m@) =~= all_emptied(
                manager_views(managers@),
            ).take(i + 1));
        }
        emptied.push(m);
        i += 1;
    }
    proof {
        assert(all_emptied(manager_views(managers@)).take(managers.len() as int) =~= all_emptied(
            manager_views(managers@),
        ));
    }
    Generation { managers: emptied }
}

/// What a store is started with: for a store without generations the
/// baseline, to be written as generation 0; nothing for any other store.
pub fn initialize_if_empty(names: &[String], managers: &[Dpm]) -> (r: Option<Generation>)
    ensures
        match r {
            Some(g) => ledger(texts(names@)).len() == 0 && g@ == all_emptied(
                manager_views(managers@),
            ),
            None => ledger(texts(names@)).len() > 0,
        },
{
    match get_gen_file(names, 0) {
        Some(_) => None,
        None => Some(baseline(managers)),
    }
}

/// The store after the file of the next generation was written into it.
pub open spec fn appended(names: Seq<Seq<char>>) -> Seq<Seq<char>> {
    names.push(file_name(next_number(names)))
}

/// An append adds one generation. It becomes the newest, its number is one
/// more than the newest had (0 in an empty store) and above every number in
/// the store, and the append after it takes the number that follows.
pub proof fn append_takes_the_next_number(names: Seq<Seq<char>>)
    requires
        next_number(names) <= MAX_GENERATION,
    ensures
        ledger(appended(names)).len() == ledger(names).len() + 1,
        ledger(appended(names))[0].number == next_number(names),
        ledger(appended(names))[0].name == file_name(next_number(names)),
        ledger(appended(names)).skip(1) == ledger(names),
        forall|i: int|
            0 <= i < ledger(names).len() ==> (#[trigger] ledger(names)[i]).number < next_number(
                names,
            ),
        next_number(appended(names)) == next_number(names) + 1,
{
    let n = next_number(names);
    let before = ledger(names);
    let after = appended(names);
    let e = GenerationFileView { number: n as u32, name: file_name(n) };
    file_name_gives_its_number(n as u32);
    assert(after.drop_last() =~= names);
    assert(listed(after) == listed(names).push(e));
    assert(listed(after).drop_last() =~= listed(names));
    lemma_newest_first(listed(names));
    lemma_rank(before, n as u32, 0);
    assert(ledger(after) == before.insert(0, e));
    assert(before.insert(0, e).skip(1) =~= before);
    assert forall|i: int| 0 <= i < before.len() implies (#[trigger] before[i]).number < n by {
        if i > 0 {
            assert(before[0].number >= before[i].number);
        }
    }
}

/// A store that was started is not started again: once generation 0 is
/// written into an empty store, the store holds a generation.
pub proof fn initialized_store_is_not_empty(names: Seq<Seq<char>>)
    requires
        ledger(names).len() == 0,
    ensures
        ledger(names.push(file_name(0))).len() == 1,
        ledger(names.push(file_name(0)))[0].number == 0,
{
    append_takes_the_next_number(names);
}

} // verus!
