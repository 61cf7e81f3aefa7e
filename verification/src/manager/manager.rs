//! Collections by name, shared read-only.

use std::sync::Arc;
use vstd::prelude::*;
use crate::exchange::asset::texts;
use crate::exchange::exchange::{built_outcome, Exchange, ExchangeView, SourceFile};
use crate::standard::error::AtlasError;
use crate::standard::types::AtlasResult;

verus! {

/// `std::sync::Arc::clone`: one more handle to the same value.
#[verifier::external_body]
fn share(handle: &Arc<Exchange>) -> (shared: Arc<Exchange>)
    ensures
        shared == *handle,
{
    Arc::clone(handle)
}

struct Entry {
    name: String,
    exchange: Arc<Exchange>,
}

/// Collections that were built, each under its name. A collection does not
/// change once it is built, so it is handed out as a shared handle.
pub struct AtlasManager {
    entries: Vec<Entry>,
}

impl View for AtlasManager {
    type V = Map<Seq<char>, ExchangeView>;

    closed spec fn view(&self) -> Map<Seq<char>, ExchangeView> {
        Map::new(
            |name: Seq<char>| exists|i: int| self.holds(name, i),
            |name: Seq<char>| self.entries@[choose|i: int| self.holds(name, i)].exchange@,
        )
    }
}

impl AtlasManager {
    #[verifier::type_invariant]
    spec fn inv(self) -> bool {
        forall|i: int, j: int|
            0 <= i < j < self.entries@.len() ==> self.entries@[i].name@ != self.entries@[j].name@
    }

    /// Entry `i` is the one of the name `name`.
    spec fn holds(self, name: Seq<char>, i: int) -> bool {
        0 <= i < self.entries@.len() && self.entries@[i].name@ == name
    }

    proof fn lemma_lookup(self, name: Seq<char>, i: int)
        requires
            self.inv(),
            self.holds(name, i),
        ensures
            self@.contains_key(name),
            self@[name] == self.entries@[i].exchange@,
    {
        let chosen = choose|k: int| self.holds(name, k);
        assert(chosen == i);
    }

    fn position(&self, name: &str) -> (found: Option<usize>)
        ensures
            match found {
                Some(i) => self.holds(name@, i as int),
                None => !self@.contains_key(name@),
            },
    {
        let target = String::from_str(name);
        let mut i: usize = 0;
        while i < self.entries.len()
            invariant
                i <= self.entries.len(),
                target@ == name@,
                forall|k: int| 0 <= k < i ==> !self.holds(name@, k),
            decreases self.entries.len() - i,
        {
            if self.entries[i].name == target {
                return Some(i);
            }
            i += 1;
        }
        None
    }

    /// A registry that holds no collection.
    pub fn new() -> (manager: AtlasResult<AtlasManager>)
        ensures
            manager matches Ok(empty) && empty@ == Map::<Seq<char>, ExchangeView>::empty(),
    {
        let manager = AtlasManager { entries: Vec::new() };
        assert(manager@ =~= Map::<Seq<char>, ExchangeView>::empty());
        Ok(manager)
    }

    /// Builds a collection from the files of a source, as `Exchange::new` does,
    /// and registers it under `name`, in place of a collection that had the
    /// name. Where the collection cannot be built, the registry stays as it
    /// was and the error is handed on.
    pub fn add_exchange<F: Fn(&String) -> Option<u64>>(
        &mut self,
        name: &str,
        source: &str,
        datetime_format: &str,
        files: &Vec<SourceFile>,
        parse_cell: &F,
    ) -> (outcome: AtlasResult<()>)
        requires
            forall|text: &String| call_requires(*parse_cell, (text,)),
        ensures
            exists|built: AtlasResult<Exchange>|
                #[trigger] built_outcome(
                    built,
                    name@,
                    source@,
                    datetime_format@,
                    files@,
                    *parse_cell,
                ) && match built {
                    Ok(exchange) => outcome is Ok && final(self)@ == old(self)@.insert(
                        name@,
                        exchange@,
                    ),
                    Err(error) => outcome == Err::<(), AtlasError>(error) && final(self)@ == old(
                        self,
                    )@,
                },
    {
        proof {
            use_type_invariant(&*self);
        }
        let built = Exchange::new(name, source, datetime_format, files, parse_cell);
        let ghost witness = built;
        match built {
            Err(error) => Err(error),
            Ok(exchange) => {
                let ghost added = exchange@;
                let entry = Entry { name: String::from_str(name), exchange: Arc::new(exchange) };
                let ghost before = *self;
                let place = self.position(name);
                let mut entries: Vec<Entry> = Vec::new();
                std::mem::swap(&mut self.entries, &mut entries);
                let ghost slot: int = match place {
                    Some(i) => i as int,
                    None => entries@.len() as int,
                };
                proof {
                    assert forall|k: int| place is None implies !before.holds(name@, k) by {
                        if before.holds(name@, k) {
                            before.lemma_lookup(name@, k);
                        }
                    }
                }
                match place {
                    Some(i) => {
                        entries.set(i, entry);
                    },
                    None => {
                        entries.push(entry);
                    },
                }
                proof {
                    assert forall|i: int, j: int| 0 <= i < j < entries@.len() implies entries@[i].name@
                        != entries@[j].name@ by {
                        if i < before.entries@.len() && j < before.entries@.len() {
                            assert(before.entries@[i].name@ != before.entries@[j].name@);
                        }
                        if i != slot && j == slot {
                            assert(!(place is None && before.holds(name@, i)));
                        }
                    }
                }
                self.entries = entries;
                proof {
                    assert(self.holds(name@, slot));
                    assert forall|key: Seq<char>, k: int| self.holds(key, k) == (before.holds(
                        key,
                        k,
                    ) || (k == slot && key == name@)) by {}
                    assert forall|key: Seq<char>| self@.contains_key(key) == before@.insert(
                        name@,
                        added,
                    ).contains_key(key) by {
                        if before@.contains_key(key) {
                            let k = choose|k: int| before.holds(key, k);
                            assert(self.holds(key, k));
                        }
                        if self@.contains_key(key) {
                            let k = choose|k: int| self.holds(key, k);
                            assert(before.holds(key, k) || key == name@);
                        }
                    }
                    assert forall|key: Seq<char>| #[trigger]
                        self@.contains_key(key) implies self@[key] == before@.insert(
                        name@,
                        added,
                    )[key] by {
                        let k = choose|k: int| self.holds(key, k);
                        self.lemma_lookup(key, k);
                        if key != name@ {
                            before.lemma_lookup(key, k);
                        } else {
                            self.lemma_lookup(key, slot);
                        }
                    }
                    assert(self@ =~= before@.insert(name@, added));
                    assert(built_outcome(
                        witness,
                        name@,
                        source@,
                        datetime_format@,
                        files@,
                        *parse_cell,
                    ));
                }
                Ok(())
            },
        }
    }

    /// A handle to the collection that is registered under `name`; an error
    /// where there is none.
    pub fn get_exchange(&self, name: &str) -> (found: AtlasResult<Arc<Exchange>>)
        ensures
            match found {
                Ok(handle) => self@.contains_key(name@) && handle@ == self@[name@],
                Err(error) => {
                    &&& !self@.contains_key(name@)
                    &&& error is ConfigurationError
                    &&& error.msg() == "exchange not found: "@ + name@
                },
            },
    {
        proof {
            use_type_invariant(self);
        }
        match self.position(name) {
            Some(i) => {
                proof {
                    self.lemma_lookup(name@, i as int);
                }
                Ok(share(&self.entries[i].exchange))
            },
            None => Err(
                AtlasError::ConfigurationError {
                    msg: String::from_str("exchange not found: ").concat(name),
                },
            ),
        }
    }

    /// The names under which collections are registered, each once.
    pub fn get_exchange_ids(&self) -> (ids: Vec<String>)
        ensures
            texts(ids@).no_duplicates(),
            texts(ids@).to_set() == self@.dom(),
    {
        proof {
            use_type_invariant(self);
        }
        let mut ids: Vec<String> = Vec::new();
        let mut i: usize = 0;
        while i < self.entries.len()
            invariant
                i <= self.entries.len(),
                ids@.len() == i,
                forall|k: int| 0 <= k < i ==> ids@[k]@ == self.entries@[k].name@,
            decreases self.entries.len() - i,
        {
            ids.push(self.entries[i].name.clone());
            i += 1;
        }
        proof {
            let names = texts(ids@);
            assert forall|a: int, b: int| 0 <= a < names.len() && 0 <= b < names.len() && a
                != b implies names[a] != names[b] by {
                if a < b {
                    assert(self.entries@[a].name@ != self.entries@[b].name@);
                } else {
                    assert(self.entries@[b].name@ != self.entries@[a].name@);
                }
            }
            assert forall|key: Seq<char>| names.to_set().contains(key) == self@.dom().contains(
                key,
            ) by {
                if names.contains(key) {
                    let k = choose|k: int| 0 <= k < names.len() && names[k] == key;
                    assert(self.holds(key, k));
                }
                if self@.dom().contains(key) {
                    let k = choose|k: int| self.holds(key, k);
                    assert(names[k] == key);
                }
            }
            assert(names.to_set() =~= self@.dom());
        }
        ids
    }
}

} // verus!
