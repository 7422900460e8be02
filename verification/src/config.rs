//! The configuration file and the projects that it lists.
use crate::paths::{normal_path, path_normal};
use crate::text::texts;
use vstd::prelude::*;

verus! {

/// A project in the configuration file.
#[derive(Clone, Debug)]
pub struct SerProject {
    pub root: String,
    pub ignore_crates: Vec<String>,
}

/// What the configuration file says of a project.
#[verifier::ext_equal]
pub struct SerProjectView {
    pub root: Seq<char>,
    pub ignore_crates: Seq<Seq<char>>,
}

impl View for SerProject {
    type V = SerProjectView;

    open spec fn view(&self) -> SerProjectView {
        SerProjectView { root: self.root@, ignore_crates: texts(self.ignore_crates@) }
    }
}

/// A project in the configuration file, and the text of the path under which it is listed.
#[verifier::ext_equal]
pub struct ListedProject {
    pub path: Seq<char>,
    pub project: SerProjectView,
}

/// What an entry of the configuration file lists.
pub open spec fn listed(entry: (String, SerProject)) -> ListedProject {
    ListedProject { path: entry.0@, project: entry.1@ }
}

/// What is listed once a project is put under a path: the text of the path stays where the path is
/// listed already.
pub open spec fn listed_under(
    config: Map<Seq<char>, ListedProject>,
    path: Seq<char>,
    project: SerProjectView,
) -> ListedProject {
    ListedProject {
        path: if config.contains_key(normal_path(path)) {
            config[normal_path(path)].path
        } else {
            path
        },
        project,
    }
}

/// The configuration file: projects, each under its path.
#[derive(Clone, Debug)]
pub struct SerConfig {
    pub projects: Vec<(String, SerProject)>,
}

/// The projects of a configuration by the normal form of their paths, where a later entry takes the
/// place of an earlier one for the same path.
pub open spec fn config_map(entries: Seq<(String, SerProject)>) -> Map<Seq<char>, ListedProject>
    decreases entries.len(),
{
    if entries.len() == 0 {
        Map::empty()
    } else {
        config_map(entries.drop_last()).insert(
            normal_path(entries.last().0@),
            listed(entries.last()),
        )
    }
}

impl View for SerConfig {
    type V = Map<Seq<char>, ListedProject>;

    open spec fn view(&self) -> Map<Seq<char>, ListedProject> {
        config_map(self.projects@)
    }
}

impl SerConfig {
    /// No path is listed twice.
    pub open spec fn wf(&self) -> bool {
        forall|i: int, j: int|
            0 <= i < j < self.projects@.len() ==> normal_path((#[trigger] self.projects@[i]).0@)
                != normal_path((#[trigger] self.projects@[j]).0@)
    }
}

/// The map holds the entries and nothing else.
proof fn lemma_config_map(entries: Seq<(String, SerProject)>)
    requires
        forall|i: int, j: int|
            0 <= i < j < entries.len() ==> normal_path((#[trigger] entries[i]).0@) != normal_path(
                (#[trigger] entries[j]).0@,
            ),
    ensures
        forall|i: int|
            0 <= i < entries.len() ==> config_map(entries).contains_key(
                normal_path((#[trigger] entries[i]).0@),
            ) && config_map(entries)[normal_path(entries[i].0@)] == listed(entries[i]),
        forall|key: Seq<char>| #[trigger]
            config_map(entries).contains_key(key) ==> exists|i: int|
                0 <= i < entries.len() && normal_path((#[trigger] entries[i]).0@) == key,
        config_map(entries).dom().finite(),
        config_map(entries).len() == entries.len(),
    decreases entries.len(),
{
    if entries.len() > 0 {
        let rest = entries.drop_last();
        assert forall|i: int, j: int| 0 <= i < j < rest.len() implies normal_path(
            (#[trigger] rest[i]).0@,
        ) != normal_path((#[trigger] rest[j]).0@) by {
            assert(rest[i] == entries[i] && rest[j] == entries[j]);
        }
        lemma_config_map(rest);
        let last = normal_path(entries.last().0@);
        let n = entries.len() - 1;
        assert forall|i: int| 0 <= i < entries.len() implies config_map(entries).contains_key(
            normal_path((#[trigger] entries[i]).0@),
        ) && config_map(entries)[normal_path(entries[i].0@)] == listed(entries[i]) by {
            if i < n {
                assert(rest[i] == entries[i]);
                assert(normal_path(entries[i].0@) != normal_path(entries[n].0@));
            }
        }
        assert forall|key: Seq<char>| #[trigger] config_map(entries).contains_key(key) implies
            exists|i: int|
            0 <= i < entries.len() && normal_path((#[trigger] entries[i]).0@) == key by {
            if key == last {
                assert(normal_path(entries[n].0@) == key);
            } else {
                assert(config_map(rest).contains_key(key));
                let i = choose|i: int|
                    0 <= i < rest.len() && normal_path((#[trigger] rest[i]).0@) == key;
                assert(entries[i] == rest[i]);
            }
        }
        if config_map(rest).contains_key(last) {
            let i = choose|i: int|
                0 <= i < rest.len() && normal_path((#[trigger] rest[i]).0@) == last;
            assert(entries[i] == rest[i]);
            assert(normal_path(entries[i].0@) != normal_path(entries[n].0@));
        }
    }
}

/// A configuration is known by its projects: entries under distinct paths whose map is a given
/// one list just what that map holds.
pub proof fn lemma_config_is(entries: Seq<(String, SerProject)>, map: Map<Seq<char>, ListedProject>)
    requires
        forall|i: int, j: int|
            0 <= i < j < entries.len() ==> normal_path((#[trigger] entries[i]).0@) != normal_path(
                (#[trigger] entries[j]).0@,
            ),
        forall|i: int|
            0 <= i < entries.len() ==> map.contains_key(normal_path((#[trigger] entries[i]).0@))
                && map[normal_path(entries[i].0@)] == listed(entries[i]),
        forall|key: Seq<char>| #[trigger]
            map.contains_key(key) ==> exists|i: int|
                0 <= i < entries.len() && normal_path((#[trigger] entries[i]).0@) == key,
    ensures
        config_map(entries) == map,
{
    lemma_config_map(entries);
    assert forall|key: Seq<char>|
        config_map(entries).contains_key(key) == #[trigger] map.contains_key(key) && (
        map.contains_key(key) ==> config_map(entries)[key] == map[key]) by {
        if map.contains_key(key) {
            let i = choose|i: int|
                0 <= i < entries.len() && normal_path((#[trigger] entries[i]).0@) == key;
            assert(config_map(entries).contains_key(normal_path(entries[i].0@)));
        }
        if config_map(entries).contains_key(key) {
            let i = choose|i: int|
                0 <= i < entries.len() && normal_path((#[trigger] entries[i]).0@) == key;
            assert(map.contains_key(normal_path(entries[i].0@)));
        }
    }
    assert(config_map(entries) =~= map);
}

impl SerConfig {
    /// A configuration without projects.
    pub fn empty() -> (res: SerConfig)
        ensures
            res.wf(),
            (res@ == Map::<Seq<char>, ListedProject>::empty()),
    {
        SerConfig { projects: Vec::new() }
    }

    fn find(&self, path: &str) -> (res: Option<usize>)
        ensures
            match res {
                Some(i) => i < self.projects@.len() && normal_path(self.projects@[i as int].0@)
                    == normal_path(path@),
                None => forall|i: int|
                    0 <= i < self.projects@.len() ==> normal_path(
                        (#[trigger] self.projects@[i]).0@,
                    ) != normal_path(path@),
            },
    {
        let wanted = path_normal(path);
        let mut i: usize = 0;
        while i < self.projects.len()
            invariant
                wanted@ == normal_path(path@),
                i <= self.projects@.len(),
                forall|k: int|
                    0 <= k < i ==> normal_path((#[trigger] self.projects@[k]).0@) != normal_path(
                        path@,
                    ),
            decreases self.projects@.len() - i,
        {
            let key = path_normal(self.projects[i].0.as_str());
            if key == wanted {
                return Some(i);
            }
            i += 1;
        }
        None
    }

    /// Whether a project is listed under a path.
    pub fn contains(&self, path: &str) -> (res: bool)
        requires
            self.wf(),
        ensures
            res == self@.contains_key(normal_path(path@)),
    {
        proof {
            lemma_config_map(self.projects@);
        }
        match self.find(path) {
            Some(i) => {
                assert(self@.contains_key(normal_path(self.projects@[i as int].0@)));
                true
            },
            None => false,
        }
    }

    /// Lists a project under a path, in the place of the one that was listed under it. Where one
    /// was, the text of its path stays.
    pub fn insert(&mut self, path: String, project: SerProject)
        requires
            old(self).wf(),
        ensures
            final(self).wf(),
            final(self)@ == old(self)@.insert(
                normal_path(path@),
                listed_under(old(self)@, path@, project@),
            ),
    {
        let ghost before = self.projects@;
        proof {
            lemma_config_map(before);
        }
        match self.find(path.as_str()) {
            Some(i) => {
                let entry = self.projects.remove(i);
                self.projects.insert(i, (entry.0, project));
                let ghost after = self.projects@;
                proof {
                    assert(after =~= before.update(i as int, (before[i as int].0, project)));
                    let map = config_map(before).insert(
                        normal_path(path@),
                        listed_under(config_map(before), path@, project@),
                    );
                    assert forall|k: int| 0 <= k < after.len() implies map.contains_key(
                        normal_path((#[trigger] after[k]).0@),
                    ) && map[normal_path(after[k].0@)] == listed(after[k]) by {
                        assert(after[k].0 == before[k].0);
                        if k < i {
                            assert(normal_path(before[k].0@) != normal_path(before[i as int].0@));
                        } else if k > i {
                            assert(normal_path(before[i as int].0@) != normal_path(before[k].0@));
                        }
                    }
                    assert forall|key: Seq<char>| #[trigger] map.contains_key(key) implies exists|
                        k: int,
                    |
                        0 <= k < after.len() && normal_path((#[trigger] after[k]).0@) == key by {
                        if key == normal_path(path@) {
                            assert(normal_path(after[i as int].0@) == key);
                        } else {
                            assert(config_map(before).contains_key(key));
                            let k = choose|k: int|
                                0 <= k < before.len() && normal_path((#[trigger] before[k]).0@)
                                    == key;
                            assert(normal_path(after[k].0@) == key);
                        }
                    }
                    assert forall|a: int, b: int| 0 <= a < b < after.len() implies normal_path(
                        (#[trigger] after[a]).0@,
                    ) != normal_path((#[trigger] after[b]).0@) by {
                        assert(after[a].0 == before[a].0 && after[b].0 == before[b].0);
                        assert(normal_path(before[a].0@) != normal_path(before[b].0@));
                    }
                    lemma_config_is(after, map);
                }
            },
            None => {
                self.projects.push((path, project));
                let ghost after = self.projects@;
                assert(after.drop_last() =~= before);
            },
        }
    }

    /// Takes the project that is listed under a path off the list.
    pub fn remove(&mut self, path: &str)
        requires
            old(self).wf(),
        ensures
            final(self).wf(),
            final(self)@ == old(self)@.remove(normal_path(path@)),
    {
        let ghost before = self.projects@;
        proof {
            lemma_config_map(before);
        }
        match self.find(path) {
            Some(i) => {
                let _ = self.projects.remove(i);
                let ghost after = self.projects@;
                proof {
                    let map = config_map(before).remove(normal_path(path@));
                    assert forall|k: int| 0 <= k < after.len() implies #[trigger] after[k]
                        == before[if k < i {
                        k
                    } else {
                        k + 1
                    }] by {}
                    assert forall|a: int, b: int| 0 <= a < b < after.len() implies normal_path(
                        (#[trigger] after[a]).0@,
                    ) != normal_path((#[trigger] after[b]).0@) by {
                        let c = if a < i {
                            a
                        } else {
                            a + 1
                        };
                        let d = if b < i {
                            b
                        } else {
                            b + 1
                        };
                        assert(normal_path(before[c].0@) != normal_path(before[d].0@));
                    }
                    assert forall|k: int| 0 <= k < after.len() implies map.contains_key(
                        normal_path((#[trigger] after[k]).0@),
                    ) && map[normal_path(after[k].0@)] == listed(after[k]) by {
                        let c = if k < i {
                            k
                        } else {
                            k + 1
                        };
                        assert(before[c] == after[k]);
                        if c < i {
                            assert(normal_path(before[c].0@) != normal_path(before[i as int].0@));
                        } else {
                            assert(normal_path(before[i as int].0@) != normal_path(before[c].0@));
                        }
                    }
                    assert forall|key: Seq<char>| #[trigger] map.contains_key(key) implies exists|
                        k: int,
                    |
                        0 <= k < after.len() && normal_path((#[trigger] after[k]).0@) == key by {
                        assert(config_map(before).contains_key(key));
                        let c = choose|c: int|
                            0 <= c < before.len() && normal_path((#[trigger] before[c]).0@) == key;
                        let k = if c < i {
                            c
                        } else {
                            c - 1
                        };
                        assert(after[k] == before[c]);
                    }
                    lemma_config_is(after, map);
                }
            },
            None => {
                assert(!config_map(before).contains_key(normal_path(path@)));
                assert(config_map(before) =~= config_map(before).remove(normal_path(path@)));
            },
        }
    }
}

/// A configuration lists each of its entries under the normal form of its path, with the text of the
/// path, the root and the crates that are left out, and it lists nothing else.
pub proof fn law_configuration_lists_its_entries(config: SerConfig, key: Seq<char>, i: int)
    requires
        config.wf(),
        0 <= i < config.projects@.len(),
    ensures
        ({
            let (path, project) = config.projects@[i];
            let own = config@[normal_path(path@)];
            &&& config@.contains_key(normal_path(path@))
            &&& own.path == path@
            &&& own.project.root == project.root@
            &&& own.project.ignore_crates.len() == project.ignore_crates@.len()
            &&& forall|k: int|
                0 <= k < project.ignore_crates@.len() ==> #[trigger] own.project.ignore_crates[k]
                    == project.ignore_crates@[k]@
        }),
        config@.contains_key(key) <==> exists|k: int|
            0 <= k < config.projects@.len() && normal_path((#[trigger] config.projects@[k]).0@)
                == key,
        config@.dom().len() == config.projects@.len(),
{
    lemma_config_map(config.projects@);
}

/// A project that is put under a path is listed as it is given. The text of the path is the one that
/// was listed before, where one was, and else the one that is given.
pub proof fn law_put_project_is_listed_as_given(
    config: Map<Seq<char>, ListedProject>,
    path: Seq<char>,
    project: SerProjectView,
)
    ensures
        listed_under(config, path, project).project == project,
        !config.contains_key(normal_path(path)) ==> listed_under(config, path, project).path == path,
        config.contains_key(normal_path(path)) ==> listed_under(config, path, project).path
            == config[normal_path(path)].path,
{
}

}
