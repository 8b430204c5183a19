use vstd::prelude::*;
use vstd::string::{StrSliceExecFns, StringExecFns};
use crate::matcher::{path_match, path_matches_search};
use crate::rules::{excluded, rules_of_text, IgnoreFile, Rule, RuleSet};
use crate::text::{folded, make_case_insensitive, Options};

verus! {

/// A directory waiting to be searched, with the index of the rule set in
/// force there.
pub struct PendingDir {
    pub path: String,
    pub rule_index: usize,
}

impl View for PendingDir {
    type V = (Seq<char>, usize);

    open spec fn view(&self) -> (Seq<char>, usize) {
        (self.path@, self.rule_index)
    }
}

/// One entry of a directory listing, as the caller read it.
pub struct Entry {
    /// The entry's path, as the listing gives it (`./src/main.rs`).
    pub path: String,
    pub is_dir: bool,
}

impl View for Entry {
    type V = (Seq<char>, bool);

    open spec fn view(&self) -> (Seq<char>, bool) {
        (self.path@, self.is_dir)
    }
}

/// Why a search cannot start.
#[derive(Clone, Copy, Debug, PartialEq, Eq, Structural)]
pub enum InputError {
    /// The search term is empty.
    EmptyTerm,
}

/// `s` without a leading `./`.
pub open spec fn strip_dot_slash(s: Seq<char>) -> Seq<char> {
    if s.len() >= 2 && s[0] == '.' && s[1] == '/' {
        s.subrange(2, s.len() as int)
    } else {
        s
    }
}

/// Removes a leading `./` from a path.
pub fn strip_relative_prefix(s: &str) -> (r: String)
    ensures
        r@ == strip_dot_slash(s@),
{
    let n = s.unicode_len();
    if n >= 2 && s.get_char(0) == '.' && s.get_char(1) == '/' {
        s.substring_char(2, n).to_string()
    } else {
        s.to_string()
    }
}

/// The file that may hold the ignore patterns of directory `dir`.
pub fn ignore_file_path(dir: &str) -> (r: String)
    ensures
        r@ == dir@ + "/.gitignore"@,
{
    let mut r = dir.to_string();
    r.append("/.gitignore");
    r
}

/// Whether the rules `rules` exclude the listing entry `e`.
pub open spec fn entry_excluded(rules: Seq<Rule>, e: (Seq<char>, bool), insensitive: bool) -> bool {
    excluded(rules, folded(strip_dot_slash(e.0), insensitive), e.1)
}

/// Whether the listing entry `e` matches the search term `term`.
pub open spec fn entry_matches(term: Seq<char>, e: (Seq<char>, bool), insensitive: bool) -> bool {
    path_match(folded(strip_dot_slash(e.0), insensitive), term)
}

/// The paths that a listing prints, in listing order: those of the entries
/// that are kept and match, without a leading `./`.
pub open spec fn printed_of(
    rules: Seq<Rule>,
    term: Seq<char>,
    insensitive: bool,
    entries: Seq<(Seq<char>, bool)>,
) -> Seq<Seq<char>>
    decreases entries.len(),
{
    if entries.len() == 0 {
        Seq::empty()
    } else {
        let before = printed_of(rules, term, insensitive, entries.drop_last());
        let e = entries.last();
        if !entry_excluded(rules, e, insensitive) && entry_matches(term, e, insensitive) {
            before.push(strip_dot_slash(e.0))
        } else {
            before
        }
    }
}

/// The directories that a listing adds to the pending stack, in listing
/// order: the entries that are kept directories.
pub open spec fn pushed_of(
    rules: Seq<Rule>,
    insensitive: bool,
    index: usize,
    entries: Seq<(Seq<char>, bool)>,
) -> Seq<(Seq<char>, usize)>
    decreases entries.len(),
{
    if entries.len() == 0 {
        Seq::empty()
    } else {
        let before = pushed_of(rules, insensitive, index, entries.drop_last());
        let e = entries.last();
        if !entry_excluded(rules, e, insensitive) && e.1 {
            before.push((e.0, index))
        } else {
            before
        }
    }
}

/// The decisions of a depth-first search: the search term, the registry of
/// rule sets, and the stack of directories still to be searched.
pub struct Search {
    term: String,
    options: Options,
    rule_sets: Vec<RuleSet>,
    pending: Vec<PendingDir>,
}

impl Search {
    /// The search term, folded as the options ask.
    pub closed spec fn term(&self) -> Seq<char> {
        self.term@
    }

    pub closed spec fn settings(&self) -> Options {
        self.options
    }

    /// The rule sets made so far, by index.
    pub closed spec fn registry(&self) -> Seq<Seq<Rule>> {
        self.rule_sets@.map_values(|r: RuleSet| r@)
    }

    /// The directories still to be searched; the last is searched next.
    pub closed spec fn pending(&self) -> Seq<(Seq<char>, usize)> {
        self.pending@.map_values(|d: PendingDir| d@)
    }

    /// The term is not empty, and every pending directory names a rule set
    /// of the registry.
    pub open spec fn wf(&self) -> bool {
        &&& self.term().len() > 0
        &&& self.registry().len() > 0
        &&& forall|i: int|
            0 <= i < self.pending().len() ==> (#[trigger] self.pending()[i]).1 < self.registry().len()
    }

    /// Starts a search for `input` from the current directory, with one
    /// empty rule set; fails, before anything is read, on an empty term.
    pub fn new(input: &str, options: Options) -> (r: Result<Search, InputError>)
        ensures
            input@.len() == 0 ==> r == Err::<Search, InputError>(InputError::EmptyTerm),
            r is Err <==> input@.len() == 0 || folded(input@, options.insensitive).len() == 0,
            r matches Ok(s) ==> {
                &&& s.wf()
                &&& s.term() == folded(input@, options.insensitive)
                &&& s.settings() == options
                &&& s.registry() == seq![Seq::<Rule>::empty()]
                &&& s.pending() == seq![("./"@, 0usize)]
            },
    {
        if input.unicode_len() == 0 {
            return Err(InputError::EmptyTerm);
        }
        let term = make_case_insensitive(input, &options);
        if term.as_str().unicode_len() == 0 {
            return Err(InputError::EmptyTerm);
        }
        let mut rule_sets: Vec<RuleSet> = Vec::new();
        rule_sets.push(RuleSet::new_default());
        let mut pending: Vec<PendingDir> = Vec::new();
        pending.push(PendingDir { path: "./".to_string(), rule_index: 0 });
        let s = Search { term, options, rule_sets, pending };
        assert(s.registry() =~= seq![Seq::<Rule>::empty()]);
        assert(s.pending() =~= seq![("./"@, 0usize)]);
        Ok(s)
    }

    /// The number of rule sets made so far.
    pub fn rule_set_count(&self) -> (r: usize)
        ensures
            r == self.registry().len(),
    {
        self.rule_sets.len()
    }

    /// The case setting of the search.
    pub fn options(&self) -> (r: Options)
        ensures
            r == self.settings(),
    {
        self.options
    }

    /// Takes the directory to search next, if any is left.
    pub fn next_dir(&mut self) -> (r: Option<PendingDir>)
        requires
            old(self).wf(),
        ensures
            final(self).wf(),
            final(self).term() == old(self).term(),
            final(self).settings() == old(self).settings(),
            final(self).registry() == old(self).registry(),
            old(self).pending().len() == 0 ==> r is None && final(self).pending() == old(
                self,
            ).pending(),
            old(self).pending().len() > 0 ==> (r matches Some(d) && d@ == old(self).pending().last()
                && final(self).pending() == old(self).pending().drop_last()),
    {
        let r = self.pending.pop();
        proof {
            if old(self).pending().len() > 0 {
                assert(self.pending() =~= old(self).pending().drop_last());
            }
        }
        r
    }

    /// Enters directory `dir`, given what was found of its ignore file:
    /// where it holds patterns, a new rule set that extends the one in force
    /// is added to the registry. Returns the index of the rule set in force
    /// inside `dir`. Rule sets already made stay as they were.
    pub fn enter_dir(&mut self, dir: &PendingDir, file: &IgnoreFile) -> (r: usize)
        requires
            old(self).wf(),
            dir.rule_index < old(self).registry().len(),
        ensures
            final(self).wf(),
            final(self).term() == old(self).term(),
            final(self).settings() == old(self).settings(),
            final(self).pending() == old(self).pending(),
            r < final(self).registry().len(),
            final(self).registry().subrange(0, old(self).registry().len() as int) == old(
                self,
            ).registry(),
            file matches IgnoreFile::Contents(t) ==> {
                &&& r == old(self).registry().len()
                &&& final(self).registry() == old(self).registry().push(
                    old(self).registry()[dir.rule_index as int] + rules_of_text(
                        folded(t@, old(self).settings().insensitive),
                    ),
                )
            },
            !(file is Contents) ==> r == dir.rule_index && final(self).registry() == old(
                self,
            ).registry(),
    {
        let ghost before = self.registry();
        match self.rule_sets[dir.rule_index].extend(file, &self.options) {
            Ok(child) => {
                let ghost child_view = child@;
                self.rule_sets.push(child);
                assert(self.registry() =~= before.push(child_view));
                assert(self.registry().subrange(0, before.len() as int) =~= before);
                assert(self.pending() == old(self).pending());
                self.rule_sets.len() - 1
            },
            Err(_) => {
                assert(self.registry().subrange(0, before.len() as int) =~= before);
                dir.rule_index
            },
        }
    }

    /// Decides on one listing entry of a directory whose rule set has index
    /// `active`: an excluded entry is skipped; a kept directory is pushed to
    /// be searched later; a kept entry that matches the term is returned,
    /// without its leading `./`, to be printed.
    pub fn visit_entry(&mut self, active: usize, entry: &Entry) -> (r: Option<String>)
        requires
            old(self).wf(),
            active < old(self).registry().len(),
        ensures
            final(self).wf(),
            final(self).term() == old(self).term(),
            final(self).settings() == old(self).settings(),
            final(self).registry() == old(self).registry(),
            final(self).pending() == old(self).pending() + pushed_of(
                old(self).registry()[active as int],
                old(self).settings().insensitive,
                active,
                seq![entry@],
            ),
            match r {
                Some(p) => p@ == strip_dot_slash(entry.path@) && printed_of(
                    old(self).registry()[active as int],
                    old(self).term(),
                    old(self).settings().insensitive,
                    seq![entry@],
                ) == seq![p@],
                None => printed_of(
                    old(self).registry()[active as int],
                    old(self).term(),
                    old(self).settings().insensitive,
                    seq![entry@],
                ) == Seq::<Seq<char>>::empty(),
            },
    {
        let ghost rules = self.registry()[active as int];
        let ghost one = seq![entry@];
        let ghost ins = self.options.insensitive;
        assert(one.drop_last() =~= Seq::<(Seq<char>, bool)>::empty());
        assert(one.last() == entry@);
        assert(pushed_of(rules, ins, active, one.drop_last()) == Seq::<(Seq<char>, usize)>::empty());
        assert(printed_of(rules, self.term@, ins, one.drop_last()) == Seq::<Seq<char>>::empty());
        assert(rules == self.rule_sets@[active as int]@);
        let path = strip_relative_prefix(entry.path.as_str());
        let skip = self.rule_sets[active].is_excluded(path.as_str(), entry.is_dir, &self.options);
        if skip {
            assert(self.pending() =~= old(self).pending() + Seq::<(Seq<char>, usize)>::empty());
            return None;
        }
        let folded_path = make_case_insensitive(path.as_str(), &self.options);
        let hit = path_matches_search(folded_path.as_str(), self.term.as_str());
        if entry.is_dir {
            let ghost before = self.pending();
            self.pending.push(PendingDir { path: entry.path.clone(), rule_index: active });
            assert(self.pending() =~= before + seq![(entry.path@, active)]);
        } else {
            assert(self.pending() =~= old(self).pending() + Seq::<(Seq<char>, usize)>::empty());
        }
        if hit {
            Some(path)
        } else {
            None
        }
    }
}

/// The views of the entries of a listing, in order.
pub open spec fn entry_views(entries: Seq<Entry>) -> Seq<(Seq<char>, bool)> {
    entries.map_values(|e: Entry| e@)
}

impl Search {
    /// Decides on every entry of one directory listing, in order, under the
    /// rule set with index `active`: kept directories are pushed, in listing
    /// order, and the kept paths that match are returned, in listing order,
    /// to be printed.
    pub fn visit_listing(&mut self, active: usize, entries: &Vec<Entry>) -> (r: Vec<String>)
        requires
            old(self).wf(),
            active < old(self).registry().len(),
        ensures
            final(self).wf(),
            final(self).term() == old(self).term(),
            final(self).settings() == old(self).settings(),
            final(self).registry() == old(self).registry(),
            final(self).pending() == old(self).pending() + pushed_of(
                old(self).registry()[active as int],
                old(self).settings().insensitive,
                active,
                entry_views(entries@),
            ),
            r@.map_values(|p: String| p@) == printed_of(
                old(self).registry()[active as int],
                old(self).term(),
                old(self).settings().insensitive,
                entry_views(entries@),
            ),
    {
        let ghost rules = self.registry()[active as int];
        let ghost term = self.term();
        let ghost ins = self.settings().insensitive;
        let mut printed: Vec<String> = Vec::new();
        let mut i: usize = 0;
        assert(entry_views(entries@).subrange(0, 0) =~= Seq::<(Seq<char>, bool)>::empty());
        assert(printed@.map_values(|p: String| p@) =~= Seq::<Seq<char>>::empty());
        assert(self.pending() =~= old(self).pending() + Seq::<(Seq<char>, usize)>::empty());
        while i < entries.len()
            invariant
                i <= entries.len(),
                self.wf(),
                active < self.registry().len(),
                rules == self.registry()[active as int],
                term == self.term(),
                ins == self.settings().insensitive,
                self.term() == old(self).term(),
                self.settings() == old(self).settings(),
                self.registry() == old(self).registry(),
                self.pending() == old(self).pending() + pushed_of(
                    rules,
                    ins,
                    active,
                    entry_views(entries@).subrange(0, i as int),
                ),
                printed@.map_values(|p: String| p@) == printed_of(
                    rules,
                    term,
                    ins,
                    entry_views(entries@).subrange(0, i as int),
                ),
            decreases entries.len() - i,
        {
            let ghost seen = entry_views(entries@).subrange(0, i as int);
            let ghost e = entries@[i as int]@;
            let ghost before_pending = self.pending();
            let ghost before_printed = printed@.map_values(|p: String| p@);
            let out = self.visit_entry(active, &entries[i]);
            proof {
                let next = entry_views(entries@).subrange(0, i + 1);
                assert(next =~= seen.push(e));
                assert(next.drop_last() =~= seen);
                let one = seq![e];
                assert(one.drop_last() =~= Seq::<(Seq<char>, bool)>::empty());
                assert(pushed_of(rules, ins, active, one.drop_last()) == Seq::<(Seq<char>, usize)>::empty());
                assert(printed_of(rules, term, ins, one.drop_last()) == Seq::<Seq<char>>::empty());
                assert(pushed_of(rules, ins, active, next) == pushed_of(rules, ins, active, seen) + pushed_of(rules, ins, active, one));
                assert(printed_of(rules, term, ins, next) == printed_of(rules, term, ins, seen) + printed_of(rules, term, ins, one));
                assert(self.pending() =~= old(self).pending() + pushed_of(rules, ins, active, next));
            }
            match out {
                Some(p) => {
                    printed.push(p);
                    assert(printed@.map_values(|p: String| p@) =~= before_printed + printed_of(rules, term, ins, seq![e]));
                },
                None => {
                    assert(printed@.map_values(|p: String| p@) =~= before_printed + printed_of(rules, term, ins, seq![e]));
                },
            }
            i = i + 1;
        }
        assert(entry_views(entries@).subrange(0, i as int) =~= entry_views(entries@));
        printed
    }
}

proof fn lemma_printed_come_from_entries(
    rules: Seq<Rule>,
    term: Seq<char>,
    insensitive: bool,
    entries: Seq<(Seq<char>, bool)>,
)
    ensures
        forall|i: int|
            0 <= i < printed_of(rules, term, insensitive, entries).len() ==> exists|k: int|
                0 <= k < entries.len() && #[trigger] printed_of(rules, term, insensitive, entries)[i]
                    == strip_dot_slash(entries[k].0),
    decreases entries.len(),
{
    if entries.len() > 0 {
        let rest = entries.drop_last();
        lemma_printed_come_from_entries(rules, term, insensitive, rest);
        assert forall|i: int|
            0 <= i < printed_of(rules, term, insensitive, entries).len() implies exists|k: int|
                0 <= k < entries.len() && #[trigger] printed_of(rules, term, insensitive, entries)[i]
                    == strip_dot_slash(entries[k].0) by {
            if i < printed_of(rules, term, insensitive, rest).len() {
                let k = choose|k: int|
                    0 <= k < rest.len() && printed_of(rules, term, insensitive, rest)[i]
                        == strip_dot_slash(rest[k].0);
                assert(rest[k] == entries[k]);
            } else {
                assert(printed_of(rules, term, insensitive, entries)[i] == strip_dot_slash(
                    entries[entries.len() - 1].0,
                ));
            }
        }
    }
}

/// Within one listing whose entries have distinct paths, every path is
/// printed at most once.
pub proof fn lemma_listing_prints_once(
    rules: Seq<Rule>,
    term: Seq<char>,
    insensitive: bool,
    entries: Seq<(Seq<char>, bool)>,
)
    requires
        entries.map_values(|e: (Seq<char>, bool)| strip_dot_slash(e.0)).no_duplicates(),
    ensures
        printed_of(rules, term, insensitive, entries).no_duplicates(),
    decreases entries.len(),
{
    if entries.len() > 0 {
        let rest = entries.drop_last();
        let names = entries.map_values(|e: (Seq<char>, bool)| strip_dot_slash(e.0));
        assert(rest.map_values(|e: (Seq<char>, bool)| strip_dot_slash(e.0)) =~= names.drop_last());
        lemma_listing_prints_once(rules, term, insensitive, rest);
        lemma_printed_come_from_entries(rules, term, insensitive, rest);
        let before = printed_of(rules, term, insensitive, rest);
        let last = entries.len() - 1;
        assert forall|i: int| 0 <= i < before.len() implies before[i] != strip_dot_slash(
            entries[last].0,
        ) by {
            let k = choose|k: int|
                0 <= k < rest.len() && #[trigger] before[i] == strip_dot_slash(rest[k].0);
            assert(names[k] == strip_dot_slash(entries[k].0));
            assert(names[last] == strip_dot_slash(entries[last].0));
        }
    }
}

proof fn lemma_pushed_come_from_entries(
    rules: Seq<Rule>,
    insensitive: bool,
    index: usize,
    entries: Seq<(Seq<char>, bool)>,
)
    ensures
        forall|i: int|
            0 <= i < pushed_of(rules, insensitive, index, entries).len() ==> exists|k: int|
                0 <= k < entries.len() && #[trigger] pushed_of(rules, insensitive, index, entries)[i]
                    == (entries[k].0, index),
    decreases entries.len(),
{
    if entries.len() > 0 {
        let rest = entries.drop_last();
        lemma_pushed_come_from_entries(rules, insensitive, index, rest);
        assert forall|i: int|
            0 <= i < pushed_of(rules, insensitive, index, entries).len() implies exists|k: int|
                0 <= k < entries.len() && #[trigger] pushed_of(rules, insensitive, index, entries)[i]
                    == (entries[k].0, index) by {
            if i < pushed_of(rules, insensitive, index, rest).len() {
                let k = choose|k: int|
                    0 <= k < rest.len() && pushed_of(rules, insensitive, index, rest)[i] == (
                        rest[k].0,
                        index,
                    );
                assert(rest[k] == entries[k]);
            } else {
                assert(pushed_of(rules, insensitive, index, entries)[i] == (
                    entries[entries.len() - 1].0,
                    index,
                ));
            }
        }
    }
}

/// Within one listing whose entries have distinct paths, every directory is
/// pushed to be searched at most once.
pub proof fn lemma_listing_pushes_once(
    rules: Seq<Rule>,
    insensitive: bool,
    index: usize,
    entries: Seq<(Seq<char>, bool)>,
)
    requires
        entries.map_values(|e: (Seq<char>, bool)| e.0).no_duplicates(),
    ensures
        pushed_of(rules, insensitive, index, entries).no_duplicates(),
    decreases entries.len(),
{
    if entries.len() > 0 {
        let rest = entries.drop_last();
        let names = entries.map_values(|e: (Seq<char>, bool)| e.0);
        assert(rest.map_values(|e: (Seq<char>, bool)| e.0) =~= names.drop_last());
        lemma_listing_pushes_once(rules, insensitive, index, rest);
        lemma_pushed_come_from_entries(rules, insensitive, index, rest);
        let before = pushed_of(rules, insensitive, index, rest);
        let last = entries.len() - 1;
        assert forall|i: int| 0 <= i < before.len() implies before[i] != (
            entries[last].0,
            index,
        ) by {
            let k = choose|k: int| 0 <= k < rest.len() && #[trigger] before[i] == (rest[k].0, index);
            assert(names[k] == entries[k].0);
            assert(names[last] == entries[last].0);
        }
    }
}

/// Extending the registry never changes an earlier rule set: every index
/// that a pending directory held before the extension decides every path as
/// it did.
pub proof fn lemma_extension_keeps_earlier_sets(
    before: Seq<Seq<Rule>>,
    after: Seq<Seq<Rule>>,
    index: int,
    path: Seq<char>,
    is_dir: bool,
)
    requires
        before.len() <= after.len(),
        after.subrange(0, before.len() as int) == before,
        0 <= index < before.len(),
    ensures
        after[index] == before[index],
        excluded(after[index], path, is_dir) == excluded(before[index], path, is_dir),
{
    assert(after[index] == after.subrange(0, before.len() as int)[index]);
}

} // verus!
