//! The list of registered configurations.

use vstd::prelude::*;

use super::{Config, ConfigView};
use crate::error::CcsError;

verus! {

/// Index of the first element of `s` that satisfies `p`.
pub open spec fn first_match<A>(s: Seq<A>, p: spec_fn(A) -> bool) -> Option<int>
    decreases s.len(),
{
    if s.len() == 0 {
        None
    } else {
        match first_match(s.drop_last(), p) {
            Some(i) => Some(i),
            None => if p(s.last()) {
                Some(s.len() - 1)
            } else {
                None
            },
        }
    }
}

/// `first_match` is the least index that satisfies `p`.
pub proof fn lemma_first_match<A>(s: Seq<A>, p: spec_fn(A) -> bool)
    ensures
        match first_match(s, p) {
            Some(i) => 0 <= i < s.len() && p(s[i]) && forall|j: int| 0 <= j < i ==> !p(#[trigger] s[j]),
            None => forall|j: int| 0 <= j < s.len() ==> !p(#[trigger] s[j]),
        },
    decreases s.len(),
{
    if s.len() > 0 {
        lemma_first_match(s.drop_last(), p);
        assert forall|j: int| 0 <= j < s.len() - 1 implies s.drop_last()[j] == s[j] by {}
    }
}

/// A sequence is determined by the conditions of `lemma_first_match`.
pub proof fn lemma_first_match_unique<A>(s: Seq<A>, p: spec_fn(A) -> bool, i: int)
    requires
        0 <= i < s.len(),
        p(s[i]),
        forall|j: int| 0 <= j < i ==> !p(#[trigger] s[j]),
    ensures
        first_match(s, p) == Some(i),
{
    lemma_first_match(s, p);
    match first_match(s, p) {
        Some(k) => {
            if k < i {
                assert(!p(s[k]));
            } else if k > i {
                assert(!p(s[i]));
            }
        },
        None => {
            assert(!p(s[i]));
        },
    }
}

/// The predicate "is named `n`".
pub open spec fn named(n: Seq<char>) -> spec_fn(ConfigView) -> bool {
    |c: ConfigView| c.name == n
}

/// The predicate "is the global default".
pub open spec fn is_default_config() -> spec_fn(ConfigView) -> bool {
    |c: ConfigView| c.is_default
}

/// Position of the first configuration named `n`.
pub open spec fn find_name(cs: Seq<ConfigView>, n: Seq<char>) -> Option<int> {
    first_match(cs, named(n))
}

/// Whether some configuration is named `n`.
pub open spec fn has_name(cs: Seq<ConfigView>, n: Seq<char>) -> bool {
    find_name(cs, n) is Some
}

/// The configurations with exactly those named `n` marked as default.
pub open spec fn with_default(cs: Seq<ConfigView>, n: Seq<char>) -> Seq<ConfigView> {
    cs.map_values(
        |c: ConfigView|
            ConfigView { name: c.name, path: c.path, description: c.description, is_default: c.name == n },
    )
}

/// No two configurations share a name.
pub open spec fn names_unique(cs: Seq<ConfigView>) -> bool {
    forall|i: int, j: int| 0 <= i < cs.len() && 0 <= j < cs.len() && i != j ==> cs[i].name != cs[j].name
}

/// Registering a configuration under a fresh name makes it the one that a
/// lookup of that name finds: it stands at the end of the list.
pub proof fn lemma_add_then_find(cs: Seq<ConfigView>, c: ConfigView)
    requires
        !has_name(cs, c.name),
    ensures
        find_name(cs.push(c), c.name) == Some(cs.len() as int),
{
    lemma_first_match(cs, named(c.name));
    assert forall|j: int| 0 <= j < cs.len() implies !named(c.name)(#[trigger] cs.push(c)[j]) by {
        assert(cs.push(c)[j] == cs[j]);
    }
    lemma_first_match_unique(cs.push(c), named(c.name), cs.len() as int);
}

/// Registering a configuration does not change what a lookup of any other
/// name finds.
pub proof fn lemma_add_keeps_other_lookups(cs: Seq<ConfigView>, c: ConfigView, n: Seq<char>)
    requires
        n != c.name,
    ensures
        find_name(cs.push(c), n) == find_name(cs, n),
{
    assert(cs.push(c).drop_last() =~= cs);
}

/// Registering under a fresh name keeps the names distinct.
pub proof fn lemma_add_keeps_names_unique(cs: Seq<ConfigView>, c: ConfigView)
    requires
        names_unique(cs),
        !has_name(cs, c.name),
    ensures
        names_unique(cs.push(c)),
{
    lemma_first_match(cs, named(c.name));
    let s = cs.push(c);
    assert forall|i: int, j: int| 0 <= i < s.len() && 0 <= j < s.len() && i != j implies s[i].name
        != s[j].name by {
        if i == cs.len() {
            assert(!named(c.name)(cs[j]));
        } else if j == cs.len() {
            assert(!named(c.name)(cs[i]));
        }
    }
}

/// Removing the configuration just registered under a fresh name gives
/// back the list as it was before.
pub proof fn lemma_remove_undoes_add(cs: Seq<ConfigView>, c: ConfigView)
    requires
        !has_name(cs, c.name),
    ensures
        find_name(cs.push(c), c.name) == Some(cs.len() as int),
        cs.push(c).remove(cs.len() as int) == cs,
{
    lemma_add_then_find(cs, c);
    assert(cs.push(c).remove(cs.len() as int) =~= cs);
}

/// When names are distinct, a removed name is no longer found.
pub proof fn lemma_remove_then_not_found(cs: Seq<ConfigView>, n: Seq<char>)
    requires
        names_unique(cs),
        has_name(cs, n),
    ensures
        !has_name(cs.remove(find_name(cs, n)->0), n),
{
    lemma_first_match(cs, named(n));
    let i = find_name(cs, n)->0;
    let r = cs.remove(i);
    lemma_first_match(r, named(n));
    if let Some(k) = find_name(r, n) {
        if k < i {
            assert(r[k] == cs[k]);
        } else {
            assert(r[k] == cs[k + 1]);
        }
    }
}

/// Making `n` the default keeps every name, path and description, and so
/// every lookup by name.
pub proof fn lemma_set_default_keeps_lookups(cs: Seq<ConfigView>, n: Seq<char>, m: Seq<char>)
    ensures
        find_name(with_default(cs, n), m) == find_name(cs, m),
        forall|i: int| 0 <= i < cs.len() ==> {
            &&& (#[trigger] with_default(cs, n)[i]).name == cs[i].name
            &&& with_default(cs, n)[i].path == cs[i].path
            &&& with_default(cs, n)[i].description == cs[i].description
        },
    decreases cs.len(),
{
    if cs.len() > 0 {
        lemma_set_default_keeps_lookups(cs.drop_last(), n, m);
        assert(with_default(cs, n).drop_last() =~= with_default(cs.drop_last(), n));
    }
}

/// After making `n` the default, the default that is found is the first
/// configuration named `n`.
pub proof fn lemma_set_default_then_get_default(cs: Seq<ConfigView>, n: Seq<char>)
    requires
        has_name(cs, n),
    ensures
        first_match(with_default(cs, n), is_default_config()) == find_name(cs, n),
        with_default(cs, n)[find_name(cs, n)->0].name == n,
{
    lemma_first_match(cs, named(n));
    let i = find_name(cs, n)->0;
    let d = with_default(cs, n);
    assert forall|j: int| 0 <= j < i implies !is_default_config()(#[trigger] d[j]) by {
        assert(!named(n)(cs[j]));
    }
    lemma_first_match_unique(d, is_default_config(), i);
}

/// When names are distinct, making `n` the default leaves exactly one
/// default.
pub proof fn lemma_set_default_single(cs: Seq<ConfigView>, n: Seq<char>)
    requires
        names_unique(cs),
        has_name(cs, n),
    ensures
        forall|i: int| 0 <= i < cs.len() ==> ((#[trigger] with_default(cs, n)[i]).is_default <==> i
            == find_name(cs, n)->0),
{
    lemma_first_match(cs, named(n));
}

/// Removing a configuration and changing the default keep the names
/// distinct.
pub proof fn lemma_remove_and_set_default_keep_names_unique(cs: Seq<ConfigView>, i: int, n: Seq<char>)
    requires
        names_unique(cs),
        0 <= i < cs.len(),
    ensures
        names_unique(cs.remove(i)),
        names_unique(with_default(cs, n)),
{
    let r = cs.remove(i);
    assert forall|a: int, b: int| 0 <= a < r.len() && 0 <= b < r.len() && a != b implies r[a].name != r[b].name by {
        let a2 = if a < i { a } else { a + 1 };
        let b2 = if b < i { b } else { b + 1 };
        assert(r[a] == cs[a2] && r[b] == cs[b2]);
    }
    lemma_set_default_keeps_lookups(cs, n, n);
}

/// What a removal reports of the configuration it removed.
pub struct RemoveInfo {
    /// Whether the removed configuration was the global default.
    pub was_default: bool,
    /// Path of the removed configuration's file.
    pub path: String,
}

/// The registered configurations, in the order in which they were added.
pub struct ConfigStore {
    configs: Vec<Config>,
}

impl View for ConfigStore {
    type V = Seq<ConfigView>;

    closed spec fn view(&self) -> Seq<ConfigView> {
        self.configs@.map_values(|c: Config| c@)
    }
}

impl ConfigStore {
    /// An empty store.
    pub fn new() -> (s: ConfigStore)
        ensures
            s@ == Seq::<ConfigView>::empty(),
    {
        let s = ConfigStore { configs: Vec::new() };
        assert(s@ =~= Seq::<ConfigView>::empty());
        s
    }

    /// A store that holds the given configurations, as read from disk.
    pub fn from_configs(configs: Vec<Config>) -> (s: ConfigStore)
        ensures
            s@ == configs@.map_values(|c: Config| c@),
    {
        ConfigStore { configs }
    }

    /// Position of the first configuration named `name`.
    fn position(&self, name: &str) -> (r: Option<usize>)
        ensures
            match find_name(self@, name@) {
                Some(i) => 0 <= i < self.configs.len() && r == Some(i as usize),
                None => r is None,
            },
    {
        let key = name.to_owned();
        let mut i: usize = 0;
        while i < self.configs.len()
            invariant
                key@ == name@,
                i <= self.configs.len(),
                forall|j: int| 0 <= j < i ==> !named(name@)(#[trigger] self@[j]),
            decreases self.configs.len() - i,
        {
            if self.configs[i].name == key {
                proof {
                    lemma_first_match_unique(self@, named(name@), i as int);
                }
                return Some(i);
            }
            i = i + 1;
        }
        proof {
            lemma_first_match(self@, named(name@));
            if let Some(k) = find_name(self@, name@) {
                assert(!named(name@)(self@[k]));
            }
        }
        None
    }

    /// Registers a configuration, unless one of the same name exists.
    pub fn add(&mut self, config: Config) -> (r: Result<(), CcsError>)
        ensures
            r is Err <==> has_name(old(self)@, config@.name),
            r is Err ==> r == Err::<(), CcsError>(CcsError::NameTaken) && final(self)@ == old(self)@,
            r is Ok ==> final(self)@ == old(self)@.push(config@),
    {
        if self.position(config.name.as_str()).is_some() {
            return Err(CcsError::NameTaken);
        }
        self.configs.push(config);
        assert(self@ =~= old(self)@.push(config@));
        Ok(())
    }

    /// The first configuration named `name`.
    pub fn get(&self, name: &str) -> (r: Result<&Config, CcsError>)
        ensures
            match find_name(self@, name@) {
                Some(i) => r is Ok && r->Ok_0@ == self@[i],
                None => r == Err::<&Config, CcsError>(CcsError::NotFound),
            },
    {
        match self.position(name) {
            Some(i) => {
                assert(self@[i as int] == self.configs@[i as int]@);
                Ok(&self.configs[i])
            },
            None => Err(CcsError::NotFound),
        }
    }

    /// All configurations, in order.
    pub fn list(&self) -> (r: &[Config])
        ensures
            r@.map_values(|c: Config| c@) == self@,
    {
        self.configs.as_slice()
    }

    /// Makes the configurations named `name` the global default, and no
    /// other; refused when no configuration has that name.
    pub fn set_default(&mut self, name: &str) -> (r: Result<(), CcsError>)
        ensures
            r is Err <==> !has_name(old(self)@, name@),
            r is Err ==> r == Err::<(), CcsError>(CcsError::NotFound) && final(self)@ == old(self)@,
            r is Ok ==> final(self)@ == with_default(old(self)@, name@),
    {
        if self.position(name).is_none() {
            return Err(CcsError::NotFound);
        }
        let key = name.to_owned();
        let ghost before = self@;
        let mut i: usize = 0;
        while i < self.configs.len()
            invariant
                key@ == name@,
                i <= self.configs.len(),
                self@.len() == before.len(),
                forall|j: int| 0 <= j < i ==> #[trigger] self@[j] == with_default(before, name@)[j],
                forall|j: int| i <= j < self@.len() ==> #[trigger] self@[j] == before[j],
            decreases self.configs.len() - i,
        {
            let is_it = self.configs[i].name == key;
            let mut c = self.configs[i].clone();
            c.is_default = is_it;
            let ghost prev = self@;
            assert(prev[i as int] == self.configs@[i as int]@);
            assert(before[i as int] == prev[i as int]);
            assert(c@ == with_default(before, name@)[i as int]);
            self.configs.set(i, c);
            assert(self@ =~= prev.update(i as int, c@));
            i = i + 1;
        }
        assert(self@ =~= with_default(before, name@));
        Ok(())
    }

    /// Removes the first configuration named `name` and reports what it was.
    pub fn remove(&mut self, name: &str) -> (r: Result<RemoveInfo, CcsError>)
        ensures
            match find_name(old(self)@, name@) {
                Some(i) => {
                    &&& r is Ok
                    &&& r->Ok_0.was_default == old(self)@[i].is_default
                    &&& r->Ok_0.path@ == old(self)@[i].path
                    &&& final(self)@ == old(self)@.remove(i)
                },
                None => r is Err && r->Err_0 == CcsError::NotFound && final(self)@ == old(self)@,
            },
    {
        match self.position(name) {
            Some(i) => {
                assert(old(self)@[i as int] == self.configs@[i as int]@);
                let config = self.configs.remove(i);
                assert(self@ =~= old(self)@.remove(i as int));
                Ok(RemoveInfo { was_default: config.is_default, path: config.path })
            },
            None => Err(CcsError::NotFound),
        }
    }

    /// The first configuration marked as global default.
    pub fn get_default(&self) -> (r: Option<&Config>)
        ensures
            match first_match(self@, is_default_config()) {
                Some(i) => r is Some && r->0@ == self@[i],
                None => r is None,
            },
    {
        let mut i: usize = 0;
        while i < self.configs.len()
            invariant
                i <= self.configs.len(),
                forall|j: int| 0 <= j < i ==> !is_default_config()(#[trigger] self@[j]),
            decreases self.configs.len() - i,
        {
            if self.configs[i].is_default {
                proof {
                    lemma_first_match_unique(self@, is_default_config(), i as int);
                }
                return Some(&self.configs[i]);
            }
            i = i + 1;
        }
        proof {
            lemma_first_match(self@, is_default_config());
            if let Some(k) = first_match(self@, is_default_config()) {
                assert(!is_default_config()(self@[k]));
            }
        }
        None
    }
}

} // verus!
