//! The list of data sources that a user has added, and which of them is
//! the current one.

use vstd::prelude::*;
use vstd::string::*;

verus! {

/// One data source of the list.
#[derive(Debug)]
pub struct DataSourceConfig {
    pub id: String,
    pub file_path: String,
    pub file_name: String,
    pub loaded_at: String,
    pub total_rows: usize,
}

/// The data sources, in the order in which they were added, and the
/// identifier of the current one.
#[derive(Debug)]
pub struct DataSourceListConfig {
    pub data_sources: Vec<DataSourceConfig>,
    pub current_id: Option<String>,
}

/// The place of the first of `sources` with the identifier `id`.
pub open spec fn place_of(sources: Seq<DataSourceConfig>, id: Seq<char>) -> Option<int>
    decreases sources.len(),
{
    if sources.len() == 0 {
        None
    } else {
        match place_of(sources.drop_last(), id) {
            Some(i) => Some(i),
            None => if sources.last().id@ == id {
                Some(sources.len() - 1)
            } else {
                None
            },
        }
    }
}

/// Whether one of `sources` has the path `file_path`.
pub open spec fn lists_path(sources: Seq<DataSourceConfig>, file_path: Seq<char>) -> bool {
    exists|i: int| 0 <= i < sources.len() && (#[trigger] sources[i]).file_path@ == file_path
}

/// Those of `sources` that do not have the identifier `id`, in order.
pub open spec fn without(sources: Seq<DataSourceConfig>, id: Seq<char>) -> Seq<DataSourceConfig>
    decreases sources.len(),
{
    if sources.len() == 0 {
        Seq::empty()
    } else if sources.last().id@ == id {
        without(sources.drop_last(), id)
    } else {
        without(sources.drop_last(), id).push(sources.last())
    }
}

/// The characters of an optional identifier.
pub open spec fn id_view(id: Option<String>) -> Option<Seq<char>> {
    match id {
        Some(s) => Some(s@),
        None => None,
    }
}

impl DataSourceListConfig {
    /// The place of the source to show: the current one if it is in the
    /// list, else the first one.
    pub open spec fn shown(self) -> Option<int> {
        let current = match self.current_id {
            Some(id) => place_of(self.data_sources@, id@),
            None => None,
        };
        if current is Some {
            current
        } else if self.data_sources@.len() > 0 {
            Some(0)
        } else {
            None
        }
    }

    /// The identifier of the source to load at the start: the current one,
    /// or that of the first source if none is current.
    pub open spec fn startup(self) -> Option<Seq<char>> {
        match self.current_id {
            Some(id) => Some(id@),
            None => if self.data_sources@.len() > 0 {
                Some(self.data_sources@[0].id@)
            } else {
                None
            },
        }
    }

    /// A list without sources.
    pub fn new() -> (list: DataSourceListConfig)
        ensures
            list.data_sources@.len() == 0,
            list.current_id is None,
    {
        DataSourceListConfig { data_sources: Vec::new(), current_id: None }
    }

    /// Tells whether a source with the path `file_path` is in the list.
    pub fn has_path(&self, file_path: &str) -> (found: bool)
        ensures
            found == lists_path(self.data_sources@, file_path@),
    {
        let wanted = String::from_str(file_path);
        let mut i: usize = 0;
        while i < self.data_sources.len()
            invariant
                i <= self.data_sources.len(),
                wanted@ == file_path@,
                forall|j: int| 0 <= j < i ==> (#[trigger] self.data_sources@[j]).file_path@ != file_path@,
            decreases self.data_sources.len() - i,
        {
            if self.data_sources[i].file_path == wanted {
                return true;
            }
            i += 1;
        }
        false
    }

    /// Finds the place of the source with the identifier `id`.
    pub fn find(&self, id: &str) -> (r: Option<usize>)
        ensures
            match r {
                Some(i) => place_of(self.data_sources@, id@) == Some(i as int) && i
                    < self.data_sources@.len() && self.data_sources@[i as int].id@ == id@,
                None => place_of(self.data_sources@, id@) is None,
            },
    {
        let wanted = String::from_str(id);
        let ghost sources = self.data_sources@;
        let mut i: usize = 0;
        assert(sources.take(0) == Seq::<DataSourceConfig>::empty());
        while i < self.data_sources.len()
            invariant
                i <= self.data_sources.len(),
                wanted@ == id@,
                sources == self.data_sources@,
                place_of(sources.take(i as int), id@) is None,
            decreases self.data_sources.len() - i,
        {
            proof {
                assert(sources.take(i + 1).drop_last() == sources.take(i as int));
                assert(sources.take(i + 1).last() == sources[i as int]);
                lemma_place_of_prefix(sources, id@, i + 1);
            }
            if self.data_sources[i].id == wanted {
                return Some(i);
            }
            i += 1;
        }
        assert(sources.take(i as int) == sources);
        None
    }

    /// Adds `source` at the end of the list and makes it the current one.
    pub fn add(&mut self, source: DataSourceConfig)
        ensures
            final(self).data_sources@ == old(self).data_sources@.push(source),
            id_view(final(self).current_id) == Some(source.id@),
    {
        let id = source.id.clone();
        self.data_sources.push(source);
        self.current_id = Some(id);
    }

    /// Takes the sources with the identifier `id` off the list, and tells
    /// whether it was the current one. If it was, the first source left
    /// becomes the current one, or none if the list is empty.
    pub fn remove(&mut self, id: &str) -> (was_current: bool)
        ensures
            was_current == (id_view(old(self).current_id) == Some(id@)),
            final(self).data_sources@ == without(old(self).data_sources@, id@),
            id_view(final(self).current_id) == if was_current {
                if final(self).data_sources@.len() > 0 {
                    Some(final(self).data_sources@[0].id@)
                } else {
                    None
                }
            } else {
                id_view(old(self).current_id)
            },
    {
        let wanted = String::from_str(id);
        let was_current = match &self.current_id {
            Some(current) => *current == wanted,
            None => false,
        };
        let mut kept: Vec<DataSourceConfig> = Vec::new();
        let ghost sources = self.data_sources@;
        assert(sources.skip(0) == sources);
        while self.data_sources.len() > 0
            invariant
                wanted@ == id@,
                self.current_id == old(self).current_id,
                without(sources, id@) == without(self.data_sources@, id@) + reversed(kept@),
            decreases self.data_sources.len(),
        {
            let ghost before = self.data_sources@;
            let source = self.data_sources.pop().unwrap();
            proof {
                assert(before.drop_last() == self.data_sources@);
                assert(before.last() == source);
            }
            if source.id != wanted {
                let ghost done = kept@;
                kept.push(source);
                proof {
                    lemma_reversed_push(done, source);
                    let rest = without(self.data_sources@, id@);
                    assert(rest.push(source) + reversed(done) =~= rest + (seq![source] + reversed(
                        done,
                    )));
                }
            }
        }
        assert(without(self.data_sources@, id@) == Seq::<DataSourceConfig>::empty());
        assert(without(sources, id@) =~= reversed(kept@));
        while kept.len() > 0
            invariant
                self.current_id == old(self).current_id,
                without(sources, id@) == self.data_sources@ + reversed(kept@),
            decreases kept.len(),
        {
            let ghost before = kept@;
            let source = kept.pop().unwrap();
            let ghost shown = self.data_sources@;
            self.data_sources.push(source);
            proof {
                assert(before.drop_last() == kept@);
                lemma_reversed_push(kept@, source);
                assert(shown.push(source) + reversed(kept@) =~= shown + (seq![source] + reversed(
                    kept@,
                )));
            }
        }
        assert(reversed(kept@) == Seq::<DataSourceConfig>::empty());
        assert(self.data_sources@ + Seq::<DataSourceConfig>::empty() == self.data_sources@);
        if was_current {
            if self.data_sources.len() > 0 {
                self.current_id = Some(self.data_sources[0].id.clone());
            } else {
                self.current_id = None;
            }
        }
        was_current
    }

    /// The source to show: the current one if it is in the list, else the
    /// first one.
    pub fn current(&self) -> (r: Option<&DataSourceConfig>)
        ensures
            match r {
                Some(source) => self.shown() matches Some(i) && 0 <= i < self.data_sources@.len()
                    && *source == self.data_sources@[i],
                None => self.shown() is None,
            },
    {
        let found = match &self.current_id {
            Some(id) => self.find(id.as_str()),
            None => None,
        };
        match found {
            Some(i) => Some(&self.data_sources[i]),
            None => if self.data_sources.len() > 0 {
                Some(&self.data_sources[0])
            } else {
                None
            },
        }
    }

    /// The identifier of the source to load at the start.
    pub fn startup_id(&self) -> (r: Option<String>)
        ensures
            id_view(r) == self.startup(),
    {
        match &self.current_id {
            Some(id) => Some(id.clone()),
            None => if self.data_sources.len() > 0 {
                Some(self.data_sources[0].id.clone())
            } else {
                None
            },
        }
    }
}

/// `s` from its last item to its first.
pub open spec fn reversed<A>(s: Seq<A>) -> Seq<A>
    decreases s.len(),
{
    if s.len() == 0 {
        Seq::empty()
    } else {
        seq![s.last()] + reversed(s.drop_last())
    }
}

/// Reversed, what was put last comes first.
proof fn lemma_reversed_push<A>(s: Seq<A>, x: A)
    ensures
        reversed(s.push(x)) == seq![x] + reversed(s),
{
    assert(s.push(x).drop_last() == s);
    assert(s.push(x).last() == x);
}

/// A place found among the first sources is the place among all.
pub proof fn lemma_place_of_prefix(sources: Seq<DataSourceConfig>, id: Seq<char>, k: int)
    requires
        0 <= k <= sources.len(),
    ensures
        place_of(sources.take(k), id) is Some ==> place_of(sources, id) == place_of(
            sources.take(k),
            id,
        ),
    decreases sources.len() - k,
{
    if k < sources.len() {
        lemma_place_of_prefix(sources, id, k + 1);
        assert(sources.take(k + 1).drop_last() == sources.take(k));
    } else {
        assert(sources.take(k) == sources);
    }
}

} // verus!
