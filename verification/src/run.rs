//! Choosing the configuration to start the coding assistant with.

use vstd::prelude::*;

use crate::config::store::{find_name, first_match, is_default_config};
use crate::config::{Config, ConfigManager, ConfigView};
use crate::error::CcsError;
use crate::pin::PinConfig;

verus! {

/// Which configuration is chosen, as a position in the list, or why none
/// is: a name given by the user comes first, then the project pin, then
/// the global default.
pub open spec fn choice(user: Option<Seq<char>>, pin: Option<Seq<char>>, cs: Seq<ConfigView>) -> Result<int, CcsError> {
    match user {
        Some(n) => match find_name(cs, n) {
            Some(i) => Ok(i),
            None => Err(CcsError::NotFound),
        },
        None => match pin {
            Some(p) => match find_name(cs, p) {
                Some(i) => Ok(i),
                None => Err(CcsError::PinTargetMissing),
            },
            None => match first_match(cs, is_default_config()) {
                Some(i) => Ok(i),
                None => Err(CcsError::NoConfigAvailable),
            },
        },
    }
}

/// The configuration to run with: the one the user named, else the one
/// the project pin names (`pin`, found by the caller), else the global
/// default.
pub fn resolve_config<'a>(user_input: Option<String>, pin: Option<PinConfig>, manager: &'a ConfigManager) -> (r: Result<&'a Config, CcsError>)
    ensures
        match choice(
            match user_input {
                Some(n) => Some(n@),
                None => None,
            },
            match pin {
                Some(p) => Some(p.config@),
                None => None,
            },
            manager@,
        ) {
            Ok(i) => r is Ok && r->Ok_0@ == manager@[i],
            Err(e) => r is Err && r->Err_0 == e,
        },
{
    if let Some(name) = user_input {
        return manager.get_config(name.as_str());
    }
    if let Some(p) = pin {
        return match manager.get_config(p.config.as_str()) {
            Ok(c) => Ok(c),
            Err(_) => Err(CcsError::PinTargetMissing),
        };
    }
    match manager.get_default_config() {
        Some(c) => Ok(c),
        None => Err(CcsError::NoConfigAvailable),
    }
}

/// A name given by the user decides alone: the pin and the default do not
/// matter.
pub proof fn lemma_user_choice_decides(n: Seq<char>, p: Option<Seq<char>>, cs: Seq<ConfigView>)
    ensures
        choice(Some(n), p, cs) == choice(Some(n), None, cs),
        choice(Some(n), p, cs) == match find_name(cs, n) {
            Some(i) => Ok::<int, CcsError>(i),
            None => Err(CcsError::NotFound),
        },
{
}

/// A pin comes before the global default: with a pin, the default does not
/// matter, and a pin to a missing configuration is an error even when a
/// default is set.
pub proof fn lemma_pin_before_default(p: Seq<char>, cs: Seq<ConfigView>)
    ensures
        choice(None, Some(p), cs) == match find_name(cs, p) {
            Some(i) => Ok::<int, CcsError>(i),
            None => Err(CcsError::PinTargetMissing),
        },
{
}

/// Whatever is chosen is a registered configuration.
pub proof fn lemma_choice_in_range(user: Option<Seq<char>>, pin: Option<Seq<char>>, cs: Seq<ConfigView>)
    ensures
        choice(user, pin, cs) matches Ok(i) ==> 0 <= i < cs.len(),
{
    match user {
        Some(n) => crate::config::store::lemma_first_match(cs, crate::config::store::named(n)),
        None => match pin {
            Some(p) => crate::config::store::lemma_first_match(cs, crate::config::store::named(p)),
            None => crate::config::store::lemma_first_match(cs, is_default_config()),
        },
    }
}

/// What a run chooses, in terms of the configurations themselves:
/// - with a name from the user, the first configuration of that name, and
///   `NotFound` exactly when none has it;
/// - else with a pin, the first configuration of the pinned name, and
///   `PinTargetMissing` exactly when none has it;
/// - else the first configuration marked as global default, and
///   `NoConfigAvailable` exactly when none is marked.
pub proof fn lemma_choice_law(user: Option<Seq<char>>, pin: Option<Seq<char>>, cs: Seq<ConfigView>)
    ensures
        user is Some ==> {
            let n = user->0;
            let r = choice(user, pin, cs);
            &&& r is Ok ==> {
                let i = r->Ok_0;
                &&& 0 <= i < cs.len()
                &&& cs[i].name == n
                &&& forall|j: int| 0 <= j < i ==> #[trigger] cs[j].name != n
            }
            &&& r is Err <==> forall|j: int| 0 <= j < cs.len() ==> #[trigger] cs[j].name != n
            &&& r is Err ==> r == Err::<int, CcsError>(CcsError::NotFound)
        },
        (user is None && pin is Some) ==> {
            let p = pin->0;
            let r = choice(user, pin, cs);
            &&& r is Ok ==> {
                let i = r->Ok_0;
                &&& 0 <= i < cs.len()
                &&& cs[i].name == p
                &&& forall|j: int| 0 <= j < i ==> #[trigger] cs[j].name != p
            }
            &&& r is Err <==> forall|j: int| 0 <= j < cs.len() ==> #[trigger] cs[j].name != p
            &&& r is Err ==> r == Err::<int, CcsError>(CcsError::PinTargetMissing)
        },
        (user is None && pin is None) ==> {
            let r = choice(user, pin, cs);
            &&& r is Ok ==> {
                let i = r->Ok_0;
                &&& 0 <= i < cs.len()
                &&& cs[i].is_default
                &&& forall|j: int| 0 <= j < i ==> !(#[trigger] cs[j].is_default)
            }
            &&& r is Err <==> forall|j: int| 0 <= j < cs.len() ==> !(#[trigger] cs[j].is_default)
            &&& r is Err ==> r == Err::<int, CcsError>(CcsError::NoConfigAvailable)
        },
{
    match user {
        Some(n) => {
            crate::config::store::lemma_first_match(cs, crate::config::store::named(n));
            if choice(user, pin, cs) is Ok {
                let i = choice(user, pin, cs)->Ok_0;
                assert(crate::config::store::named(n)(cs[i]));
            }
        },
        None => match pin {
            Some(p) => {
                crate::config::store::lemma_first_match(cs, crate::config::store::named(p));
                if choice(user, pin, cs) is Ok {
                    let i = choice(user, pin, cs)->Ok_0;
                    assert(crate::config::store::named(p)(cs[i]));
                }
            },
            None => {
                crate::config::store::lemma_first_match(cs, is_default_config());
                if choice(user, pin, cs) is Ok {
                    let i = choice(user, pin, cs)->Ok_0;
                    assert(is_default_config()(cs[i]));
                }
            },
        },
    }
}

} // verus!
