//! The configuration of named task lists: which lists there are, the file
//! of each, the list that is current, and where the configuration itself
//! is looked for.

use vstd::prelude::*;

verus! {

/// The name of the list that a fresh configuration holds.
pub const DEFAULT_LIST: &'static str = "default_tasks";

/// Where the configuration lies below a home directory.
pub const HOME_CONFIG: &'static str = "/.config/kask/kask.config";

/// The name of the configuration file in the working directory.
pub const LOCAL_CONFIG: &'static str = "kask.config";

/// A named list and the path of its file.
#[derive(Debug, PartialEq, Eq)]
pub struct ListEntry {
    pub name: String,
    pub path: String,
}

/// The lists that are known and the name of the current one.
#[derive(Debug, PartialEq, Eq)]
pub struct KaskConfig {
    pub current_tasks_list: String,
    pub tasks_lists_paths: Vec<ListEntry>,
}

/// Why a change to the configuration was refused.
#[derive(Clone, Copy, Debug, PartialEq, Eq, Structural)]
pub enum ConfigError {
    /// No list has the name.
    UnknownList,
    /// A list has the name already.
    ListExists,
}

/// Whether a list of `lists` is named `name`.
pub open spec fn names(lists: Seq<ListEntry>, name: Seq<char>) -> bool {
    exists|i: int| 0 <= i < lists.len() && (#[trigger] lists[i]).name@ == name
}

/// Whether `at` is the place of the first list named `name`.
pub open spec fn is_first_named(lists: Seq<ListEntry>, name: Seq<char>, at: int) -> bool {
    &&& 0 <= at < lists.len()
    &&& lists[at].name@ == name
    &&& forall|i: int| 0 <= i < at ==> (#[trigger] lists[i]).name@ != name
}

/// Whether no two lists have the same name.
pub open spec fn distinct_names(lists: Seq<ListEntry>) -> bool {
    forall|i: int, j: int|
        #![trigger lists[i], lists[j]]
        0 <= i < j < lists.len() ==> lists[i].name@ != lists[j].name@
}

/// The lists not named `name`, in their order.
pub open spec fn without_name(lists: Seq<ListEntry>, name: Seq<char>) -> Seq<ListEntry> {
    lists.filter(|e: ListEntry| e.name@ != name)
}

/// Without a name, the lists are those before the last without it, and
/// the last where it has another name.
pub proof fn lemma_without_last(lists: Seq<ListEntry>, name: Seq<char>)
    requires
        lists.len() > 0,
    ensures
        without_name(lists, name) == if lists.last().name@ != name {
            without_name(lists.drop_last(), name).push(lists.last())
        } else {
            without_name(lists.drop_last(), name)
        },
{
    reveal(Seq::filter);
}

/// The lists that are left without a name are the lists of every other
/// name.
pub proof fn lemma_without_members(lists: Seq<ListEntry>, name: Seq<char>, other: Seq<char>)
    ensures
        names(without_name(lists, name), other) <==> other != name && names(lists, other),
    decreases lists.len(),
{
    let kept = without_name(lists, name);
    if lists.len() == 0 {
        lists.lemma_filter_len(|e: ListEntry| e.name@ != name);
        assert(kept.len() == 0);
    } else {
        let init = lists.drop_last();
        let last = lists.last();
        let before = without_name(init, name);
        lemma_without_last(lists, name);
        lemma_without_members(init, name, other);
        if names(kept, other) {
            let i = choose|i: int| 0 <= i < kept.len() && (#[trigger] kept[i]).name@ == other;
            if i < before.len() {
                assert(before[i].name@ == other);
                assert(names(before, other));
                let j = choose|j: int| 0 <= j < init.len() && (#[trigger] init[j]).name@ == other;
                assert(lists[j].name@ == other);
            } else {
                assert(kept[i] == last);
                assert(lists[lists.len() - 1].name@ == other);
            }
            assert(other != name && names(lists, other));
        }
        if other != name && names(lists, other) {
            let j = choose|j: int| 0 <= j < lists.len() && (#[trigger] lists[j]).name@ == other;
            if j < init.len() {
                assert(init[j].name@ == other);
                assert(names(init, other));
                let i = choose|i: int|
                    0 <= i < before.len() && (#[trigger] before[i]).name@ == other;
                assert(kept[i].name@ == other);
            } else {
                assert(kept[kept.len() - 1].name@ == other);
            }
            assert(names(kept, other));
        }
    }
}

/// Removing a name leaves distinct names distinct.
pub proof fn lemma_without_distinct(lists: Seq<ListEntry>, name: Seq<char>)
    requires
        distinct_names(lists),
    ensures
        distinct_names(without_name(lists, name)),
    decreases lists.len(),
{
    let kept = without_name(lists, name);
    if lists.len() == 0 {
        lists.lemma_filter_len(|e: ListEntry| e.name@ != name);
    } else {
        let init = lists.drop_last();
        let last = lists.last();
        let before = without_name(init, name);
        lemma_without_last(lists, name);
        assert forall|i: int, j: int|
            #![trigger init[i], init[j]]
            0 <= i < j < init.len() implies init[i].name@ != init[j].name@ by {
            assert(lists[i].name@ != lists[j].name@);
        }
        lemma_without_distinct(init, name);
        if last.name@ != name {
            assert forall|i: int, j: int|
                #![trigger kept[i], kept[j]]
                0 <= i < j < kept.len() implies kept[i].name@ != kept[j].name@ by {
                if j < before.len() {
                    assert(before[i].name@ != before[j].name@);
                } else {
                    if kept[i].name@ == last.name@ {
                        assert(before[i].name@ == last.name@);
                        assert(names(before, last.name@));
                        lemma_without_members(init, name, last.name@);
                        let k = choose|k: int|
                            0 <= k < init.len() && (#[trigger] init[k]).name@ == last.name@;
                        assert(lists[k].name@ != lists[lists.len() - 1].name@);
                    }
                }
            }
        }
    }
}

/// The configuration that is made where none is found: the default list,
/// kept in the file at `path`, is the only list and the current one.
pub fn new_kask_config(path: String) -> (config: KaskConfig)
    ensures
        config.current_tasks_list@ == DEFAULT_LIST@,
        config.tasks_lists_paths@.len() == 1,
        config.tasks_lists_paths[0].name@ == DEFAULT_LIST@,
        config.tasks_lists_paths[0].path == path,
        distinct_names(config.tasks_lists_paths@),
{
    let mut lists: Vec<ListEntry> = Vec::new();
    lists.push(ListEntry { name: DEFAULT_LIST.to_owned(), path });
    KaskConfig { current_tasks_list: DEFAULT_LIST.to_owned(), tasks_lists_paths: lists }
}

/// Where the configuration of a user lies whose home directory is `home`.
pub fn home_config_path(home: &str) -> (path: String)
    ensures
        path@ == home@ + HOME_CONFIG@,
{
    let mut path = home.to_owned();
    path.append(HOME_CONFIG);
    path
}

/// The configuration file to use. The path that the environment names
/// comes first, then the file below the home directory, then the file in
/// the working directory; each is `None` where it is not there.
pub fn choose_config_path(
    from_environment: Option<String>,
    in_home: Option<String>,
    in_working_directory: Option<String>,
) -> (chosen: Option<String>)
    ensures
        chosen == if from_environment is Some {
            from_environment
        } else if in_home is Some {
            in_home
        } else {
            in_working_directory
        },
{
    if from_environment.is_some() {
        from_environment
    } else if in_home.is_some() {
        in_home
    } else {
        in_working_directory
    }
}

impl KaskConfig {
    /// Whether no two lists have the same name.
    pub open spec fn well_formed(self) -> bool {
        distinct_names(self.tasks_lists_paths@)
    }

    /// The place of the first list named `name`, if there is one.
    pub fn find_list(&self, name: &String) -> (found: Option<usize>)
        ensures
            match found {
                Some(at) => is_first_named(self.tasks_lists_paths@, name@, at as int),
                None => !names(self.tasks_lists_paths@, name@),
            },
    {
        let mut i: usize = 0;
        while i < self.tasks_lists_paths.len()
            invariant
                i <= self.tasks_lists_paths.len(),
                forall|j: int| 0 <= j < i ==> (#[trigger] self.tasks_lists_paths[j]).name@ != name@,
            decreases self.tasks_lists_paths.len() - i,
        {
            if self.tasks_lists_paths[i].name == *name {
                return Some(i);
            }
            i += 1;
        }
        None
    }

    /// The path of the file of the current list; `None` where no list has
    /// the name of the current one.
    pub fn current_path(&self) -> (path: Option<String>)
        ensures
            match path {
                Some(p) => exists|at: int|
                    is_first_named(self.tasks_lists_paths@, self.current_tasks_list@, at)
                        && self.tasks_lists_paths[at].path@ == p@,
                None => !names(self.tasks_lists_paths@, self.current_tasks_list@),
            },
    {
        match self.find_list(&self.current_tasks_list) {
            Some(at) => Some(self.tasks_lists_paths[at].path.clone()),
            None => None,
        }
    }

    /// Makes the list named `list` the current one. Refused, with nothing
    /// changed, where no list has that name.
    pub fn set_current(&mut self, list: String) -> (outcome: Result<(), ConfigError>)
        ensures
            outcome is Ok <==> names(old(self).tasks_lists_paths@, list@),
            outcome matches Err(e) ==> e == ConfigError::UnknownList && *final(self) == *old(self),
            outcome is Ok ==> final(self).current_tasks_list == list,
            outcome is Ok ==> final(self).tasks_lists_paths == old(self).tasks_lists_paths,
    {
        match self.find_list(&list) {
            Some(_) => {
                self.current_tasks_list = list;
                Ok(())
            },
            None => Err(ConfigError::UnknownList),
        }
    }

    /// Adds a list named `list`, kept in the file at `path`, after the
    /// lists that are there. Refused, with nothing changed, where a list
    /// has that name already.
    pub fn add_list(&mut self, list: String, path: String) -> (outcome: Result<(), ConfigError>)
        ensures
            outcome is Ok <==> !names(old(self).tasks_lists_paths@, list@),
            outcome matches Err(e) ==> e == ConfigError::ListExists && *final(self) == *old(self),
            outcome is Ok ==> final(self).current_tasks_list == old(self).current_tasks_list
                && final(self).tasks_lists_paths@ == old(self).tasks_lists_paths@.push(
                ListEntry { name: list, path },
            ),
            outcome is Ok && old(self).well_formed() ==> final(self).well_formed(),
    {
        match self.find_list(&list) {
            Some(_) => Err(ConfigError::ListExists),
            None => {
                self.tasks_lists_paths.push(ListEntry { name: list, path });
                Ok(())
            },
        }
    }

    /// Removes the lists named `list`. Refused, with nothing changed, where
    /// no list has that name.
    pub fn remove_list(&mut self, list: &String) -> (outcome: Result<(), ConfigError>)
        ensures
            outcome is Ok <==> names(old(self).tasks_lists_paths@, list@),
            outcome matches Err(e) ==> e == ConfigError::UnknownList && *final(self) == *old(self),
            outcome is Ok ==> final(self).current_tasks_list == old(self).current_tasks_list
                && final(self).tasks_lists_paths@ == without_name(
                old(self).tasks_lists_paths@,
                list@,
            ),
            outcome is Ok ==> !names(final(self).tasks_lists_paths@, list@),
            outcome is Ok && old(self).well_formed() ==> final(self).well_formed(),
    {
        if self.find_list(list).is_none() {
            return Err(ConfigError::UnknownList);
        }
        let mut all: Vec<ListEntry> = Vec::new();
        core::mem::swap(&mut self.tasks_lists_paths, &mut all);
        let ghost before = all@;
        assert(before.take(0) =~= Seq::<ListEntry>::empty());
        proof {
            before.take(0).lemma_filter_len(|e: ListEntry| e.name@ != list@);
        }
        for entry in it: all.into_iter()
            invariant
                it.seq() == before,
                self.current_tasks_list == old(self).current_tasks_list,
                self.tasks_lists_paths@ == without_name(before.take(it.index() as int), list@),
        {
            let ghost seen = before.take(it.index() as int);
            assert(before.take(it.index() + 1) =~= seen.push(entry));
            proof {
                seen.lemma_filter_push(entry, |e: ListEntry| e.name@ != list@);
            }
            if entry.name != *list {
                self.tasks_lists_paths.push(entry);
            }
        }
        assert(before.take(before.len() as int) =~= before);
        proof {
            lemma_without_members(before, list@, list@);
            if distinct_names(before) {
                lemma_without_distinct(before, list@);
            }
        }
        Ok(())
    }
}

} // verus!
