//! Chooses the profile of each interface and hands it to the driver.

use vstd::prelude::*;
use crate::runtime::config::{QdiscConfig, QdiscProfileConfig};
use crate::runtime::qdisc::driver::{QdiscDriver, QdiscRuntimeStats};
use crate::runtime::qdisc::strategy::{QdiscKind, QdiscProfile};
use crate::text::{chars_of, trim_bounds, trimmed};
use crate::text_map::{keys_sorted, lookup, TextMap};

verus! {

/// Whether the profile `p` says what the configuration entry `raw` says.
pub open spec fn profile_matches(p: QdiscProfile, raw: QdiscProfileConfig) -> bool {
    &&& QdiscKind::spec_parse(raw.kind@) == Ok::<QdiscKind, Seq<char>>(p.kind)
    &&& p.handle == raw.handle
    &&& p.parent == raw.parent
    &&& p.params@ == raw.params@
}

/// The message for the first of the first `n` entries whose kind is unknown.
pub open spec fn first_kind_error(entries: Seq<(Seq<char>, QdiscProfileConfig)>, n: int) -> Option<
    Seq<char>,
>
    decreases n,
{
    if n <= 0 {
        None
    } else {
        match first_kind_error(entries, n - 1) {
            Some(e) => Some(e),
            None => match QdiscKind::spec_parse(entries[n - 1].1.kind@) {
                Ok(_) => None,
                Err(e) => Some(e),
            },
        }
    }
}

/// An error found among the first `i` entries is the error of any longer prefix.
pub proof fn lemma_first_kind_error_stable(
    entries: Seq<(Seq<char>, QdiscProfileConfig)>,
    i: int,
    n: int,
)
    requires
        0 <= i <= n,
        first_kind_error(entries, i) is Some,
    ensures
        first_kind_error(entries, n) == first_kind_error(entries, i),
    decreases n - i,
{
    if i < n {
        lemma_first_kind_error_stable(entries, i, n - 1);
    }
}

/// The message for the first unknown kind in `cfg`: the default profile
/// comes first, then the interfaces in ascending order of their names.
pub open spec fn config_error(cfg: QdiscConfig) -> Option<Seq<char>> {
    match cfg.default {
        Some(raw) => match QdiscKind::spec_parse(raw.kind@) {
            Err(e) => Some(e),
            Ok(_) => first_kind_error(cfg.interfaces@, cfg.interfaces@.len() as int),
        },
        None => first_kind_error(cfg.interfaces@, cfg.interfaces@.len() as int),
    }
}

/// Turns a configuration entry into a profile; an unknown kind is reported.
pub fn parse_profile(raw: &QdiscProfileConfig) -> (r: Result<QdiscProfile, String>)
    ensures
        match r {
            Ok(p) => profile_matches(p, *raw),
            Err(e) => QdiscKind::spec_parse(raw.kind@) == Err::<QdiscKind, Seq<char>>(e@),
        },
{
    match QdiscKind::parse(raw.kind.as_str()) {
        Ok(kind) => Ok(
            QdiscProfile {
                kind,
                handle: raw.handle.clone(),
                parent: raw.parent.clone(),
                params: raw.params.duplicate(),
            },
        ),
        Err(e) => Err(e),
    }
}

/// Whether `name` consists of whitespace only.
pub open spec fn is_blank(name: Seq<char>) -> bool {
    trimmed(name).len() == 0
}

/// Whether the string slice `name` consists of whitespace only.
pub fn str_is_blank(name: &str) -> (r: bool)
    ensures
        r == is_blank(name@),
{
    let v = chars_of(name);
    let (a, b) = trim_bounds(&v);
    a == b
}

/// The interfaces to configure: the names of `ifaces` that are not blank,
/// each once, in ascending order.
pub fn interface_targets(ifaces: &[String]) -> (targets: TextMap<bool>)
    ensures
        keys_sorted(targets@),
        forall|k: Seq<char>|
            #[trigger] targets.spec_map().contains_key(k) <==> (!is_blank(k) && exists|i: int|
                0 <= i < ifaces@.len() && (#[trigger] ifaces@[i])@ == k),
{
    let mut targets: TextMap<bool> = TextMap::new();
    let mut i: usize = 0;
    while i < ifaces.len()
        invariant
            i <= ifaces@.len(),
            keys_sorted(targets@),
            forall|k: Seq<char>|
                #[trigger] targets.spec_map().contains_key(k) <==> (!is_blank(k) && exists|j: int|
                    0 <= j < i && (#[trigger] ifaces@[j])@ == k),
        decreases ifaces.len() - i,
    {
        let name = &ifaces[i];
        if !str_is_blank(name.as_str()) {
            targets.insert(name.clone(), true);
        }
        i += 1;
    }
    let n = targets.len();
    targets
}

/// Whether `targets` lists the interfaces to configure among `ifaces`: the
/// names that are not blank, each once, in ascending order.
pub open spec fn is_targets(targets: Seq<(Seq<char>, bool)>, ifaces: Seq<String>) -> bool {
    &&& keys_sorted(targets)
    &&& forall|k: Seq<char>|
        #[trigger] crate::text_map::has_key(targets, k) <==> (!is_blank(k) && exists|i: int|
            0 <= i < ifaces.len() && (#[trigger] ifaces[i])@ == k)
}

/// Applies configured profiles to interfaces through a driver.
pub struct QdiscController {
    driver: Box<dyn QdiscDriver>,
    default_profile: Option<QdiscProfile>,
    interface_profiles: TextMap<QdiscProfile>,
}

impl QdiscController {
    /// The profile used where an interface has none of its own.
    pub closed spec fn spec_default_profile(&self) -> Option<QdiscProfile> {
        self.default_profile
    }

    /// The profiles by interface name, in ascending order of the names.
    pub closed spec fn spec_interface_profiles(&self) -> Seq<(Seq<char>, QdiscProfile)> {
        self.interface_profiles@
    }

    /// Whether `r` is an answer of the controller's driver to the request to
    /// replace the root discipline of `iface` by `profile`.
    pub closed spec fn driver_answers_replace(
        &self,
        iface: Seq<char>,
        profile: QdiscProfile,
        r: Result<(), String>,
    ) -> bool {
        self.driver.answers_replace(iface, profile, r)
    }

    /// Whether `r` is an answer of the controller's driver to the request to
    /// remove the root discipline of `iface`.
    pub closed spec fn driver_answers_delete(&self, iface: Seq<char>, r: Result<(), String>) -> bool {
        self.driver.answers_delete(iface, r)
    }

    /// Whether `r` is an answer of the controller's driver to the request
    /// for the statistics of the root discipline of `iface`.
    pub closed spec fn driver_answers_stats(
        &self,
        iface: Seq<char>,
        r: Result<QdiscRuntimeStats, String>,
    ) -> bool {
        self.driver.answers_stats(iface, r)
    }

    /// Whether `r` is what applying its profile to `iface` gives: an answer
    /// of the driver to the request to install the profile that applies to
    /// `iface`, or success where none applies and nothing is asked.
    pub open spec fn spec_applied(&self, iface: Seq<char>, r: Result<(), String>) -> bool {
        match self.spec_profile_for(iface) {
            Some(p) => self.driver_answers_replace(iface, p, r),
            None => r is Ok,
        }
    }

    /// The profile that applies to `iface`: its own, else the default.
    pub open spec fn spec_profile_for(&self, iface: Seq<char>) -> Option<QdiscProfile> {
        match lookup(self.spec_interface_profiles(), iface) {
            Some(p) => Some(p),
            None => self.spec_default_profile(),
        }
    }

    /// Whether the controller holds what `cfg` says.
    pub open spec fn spec_reflects(&self, cfg: QdiscConfig) -> bool {
        &&& match (self.spec_default_profile(), cfg.default) {
            (Some(p), Some(raw)) => profile_matches(p, raw),
            (None, None) => true,
            _ => false,
        }
        &&& self.spec_interface_profiles().len() == cfg.interfaces@.len()
        &&& forall|i: int|
            0 <= i < cfg.interfaces@.len() ==> (#[trigger] self.spec_interface_profiles()[i]).0
                == cfg.interfaces@[i].0 && profile_matches(
                self.spec_interface_profiles()[i].1,
                cfg.interfaces@[i].1,
            )
    }

    /// A controller for the profiles of `cfg`. The first unknown kind is
    /// reported: the default profile comes first, then the interfaces in
    /// ascending order of their names.
    pub fn new(driver: Box<dyn QdiscDriver>, cfg: &QdiscConfig) -> (r: Result<Self, String>)
        ensures
            match r {
                Ok(c) => config_error(*cfg) is None && c.spec_reflects(*cfg),
                Err(e) => config_error(*cfg) == Some(e@),
            },
    {
        let default_profile = match &cfg.default {
            Some(raw) => match parse_profile(raw) {
                Ok(p) => Some(p),
                Err(e) => {
                    return Err(e);
                },
            },
            None => None,
        };
        let mut interface_profiles: TextMap<QdiscProfile> = TextMap::new();
        let n = cfg.interfaces.len();
        let mut i: usize = 0;
        while i < n
            invariant
                i <= n,
                n == cfg.interfaces@.len(),
                keys_sorted(cfg.interfaces@),
                cfg.default matches Some(raw) ==> QdiscKind::spec_parse(raw.kind@) is Ok,
                match (default_profile, cfg.default) {
                    (Some(p), Some(raw)) => profile_matches(p, raw),
                    (None, None) => true,
                    _ => false,
                },
                first_kind_error(cfg.interfaces@, i as int) is None,
                interface_profiles@.len() == i,
                keys_sorted(interface_profiles@),
                forall|j: int|
                    0 <= j < i ==> (#[trigger] interface_profiles@[j]).0 == cfg.interfaces@[j].0
                        && profile_matches(interface_profiles@[j].1, cfg.interfaces@[j].1),
            decreases n - i,
        {
            let name = cfg.interfaces.key_at(i);
            match parse_profile(cfg.interfaces.value_at(i)) {
                Ok(p) => {
                    let ghost before = interface_profiles@;
                    proof {
                        assert forall|j: int| 0 <= j < before.len() implies (
                        #[trigger] before[j]).0 != name@ by {
                            assert(crate::text::text_less(
                                cfg.interfaces@[j].0,
                                cfg.interfaces@[i as int].0,
                            ));
                            crate::text::lemma_text_less_irreflexive(name@);
                        }
                    }
                    interface_profiles.insert(name.to_owned(), p);
                    proof {
                        let after = interface_profiles@;
                        let want = before.push((name@, p));
                        assert(keys_sorted(want)) by {
                            assert forall|a: int, b: int| 0 <= a < b < want.len() implies crate::text::text_less(
                                (#[trigger] want[a]).0,
                                (#[trigger] want[b]).0,
                            ) by {
                                assert(want[a].0 == cfg.interfaces@[a].0);
                                assert(want[b].0 == cfg.interfaces@[b].0);
                            }
                        }
                        assert forall|k: Seq<char>| lookup(after, k) == lookup(want, k) by {
                            assert(interface_profiles.spec_get(k) == (if k == name@ {
                                Some(p)
                            } else {
                                lookup(before, k)
                            }));
                            if k == name@ {
                                crate::text_map::lemma_lookup_at(want, i as int);
                            } else if crate::text_map::has_key(before, k) {
                                let j = choose|j: int|
                                    0 <= j < before.len() && (#[trigger] before[j]).0 == k;
                                crate::text_map::lemma_lookup_at(before, j);
                                assert(want[j] == before[j]);
                                crate::text_map::lemma_lookup_at(want, j);
                            } else if crate::text_map::has_key(want, k) {
                                let j = choose|j: int|
                                    0 <= j < want.len() && (#[trigger] want[j]).0 == k;
                                assert(want[j] == before[j]);
                                assert(false);
                            }
                        }
                        crate::text_map::lemma_sorted_canonical(after, want);
                    }
                },
                Err(e) => {
                    proof {
                        lemma_first_kind_error_stable(cfg.interfaces@, i + 1, n as int);
                    }
                    return Err(e);
                },
            }
            i += 1;
        }
        Ok(Self { driver, default_profile, interface_profiles })
    }

    /// The profile that applies to `iface`: its own, else the default.
    pub fn profile_for(&self, iface: &str) -> (r: Option<&QdiscProfile>)
        ensures
            match r {
                Some(p) => self.spec_profile_for(iface@) == Some(*p),
                None => self.spec_profile_for(iface@) is None,
            },
    {
        match self.interface_profiles.get(iface) {
            Some(p) => Some(p),
            None => match &self.default_profile {
                Some(p) => Some(p),
                None => None,
            },
        }
    }

    /// Applies its profile to each interface of `ifaces` that is not blank,
    /// each once and in ascending order of the names, and stops at the first
    /// failure of the driver, which it hands on. Where no such interface has
    /// a profile, nothing is asked of the driver.
    pub fn apply_to_interfaces(&self, ifaces: &[String]) -> (r: Result<(), String>)
        ensures
            exists|targets: Seq<(Seq<char>, bool)>|
                #![trigger is_targets(targets, ifaces@)]
                is_targets(targets, ifaces@) && match r {
                    Ok(_) => forall|i: int|
                        0 <= i < targets.len() ==> self.spec_applied(
                            (#[trigger] targets[i]).0,
                            Ok::<(), String>(()),
                        ),
                    Err(e) => exists|i: int|
                        0 <= i < targets.len() && self.spec_applied(
                            (#[trigger] targets[i]).0,
                            Err::<(), String>(e),
                        ) && forall|j: int|
                            0 <= j < i ==> self.spec_applied(
                                (#[trigger] targets[j]).0,
                                Ok::<(), String>(()),
                            ),
                },
            (forall|i: int|
                0 <= i < ifaces@.len() && !is_blank((#[trigger] ifaces@[i])@)
                    ==> self.spec_profile_for(ifaces@[i]@) is None) ==> r is Ok,
    {
        let targets = interface_targets(ifaces);
        let n = targets.len();
        let mut i: usize = 0;
        proof {
            assert forall|k: Seq<char>| #[trigger]
                crate::text_map::has_key(targets@, k) <==> (!is_blank(k) && exists|j: int|
                    0 <= j < ifaces@.len() && (#[trigger] ifaces@[j])@ == k) by {
                assert(targets.spec_map().contains_key(k) == crate::text_map::has_key(targets@, k));
            }
        }
        while i < n
            invariant
                i <= n,
                n == targets@.len(),
                is_targets(targets@, ifaces@),
                forall|j: int|
                    0 <= j < i ==> self.spec_applied(
                        (#[trigger] targets@[j]).0,
                        Ok::<(), String>(()),
                    ),
            decreases n - i,
        {
            let name = targets.key_at(i);
            let outcome = self.apply_for_interface(name);
            match outcome {
                Ok(done) => {
                    assert(done == ());
                    assert(outcome == Ok::<(), String>(done));
                },
                Err(e) => {
                    proof {
                        assert(self.spec_applied(targets@[i as int].0, Err::<(), String>(e)));
                        assert(crate::text_map::has_key(targets@, name@));
                        let j = choose|j: int| 0 <= j < ifaces@.len() && (#[trigger] ifaces@[j])@ == name@;
                        assert(!is_blank(ifaces@[j]@));
                        assert(self.spec_profile_for(ifaces@[j]@) is Some);
                    }
                    return Err(e);
                },
            }
            i += 1;
        }
        Ok(())
    }

    /// Asks the driver to install the profile that applies to `iface` and
    /// hands on its answer; where none applies, nothing is asked and the call
    /// succeeds.
    pub fn apply_for_interface(&self, iface: &str) -> (r: Result<(), String>)
        ensures
            self.spec_applied(iface@, r),
            self.spec_profile_for(iface@) is None ==> r is Ok,
    {
        match self.profile_for(iface) {
            Some(profile) => self.driver.replace_root(iface, profile),
            None => Ok(()),
        }
    }

    /// Asks the driver to remove the root discipline of `iface` and hands on
    /// its answer.
    pub fn clear_for_interface(&self, iface: &str) -> (r: Result<(), String>)
        ensures
            self.driver_answers_delete(iface@, r),
    {
        self.driver.delete_root(iface)
    }

    /// Asks the driver to install `profile` on `iface` and hands on its
    /// answer.
    pub fn apply_profile_for_interface(&self, iface: &str, profile: &QdiscProfile) -> (r: Result<
        (),
        String,
    >)
        ensures
            self.driver_answers_replace(iface@, *profile, r),
    {
        self.driver.replace_root(iface, profile)
    }

    /// The profile that a request for `kind`, `handle` and `params` spells.
    pub fn custom_profile(kind: &str, handle: Option<&str>, params: &TextMap<String>) -> (r: Result<
        QdiscProfile,
        String,
    >)
        ensures
            match r {
                Ok(p) => QdiscKind::spec_parse(kind@) == Ok::<QdiscKind, Seq<char>>(p.kind)
                    && p.parent is None && p.params@ == params@ && match (p.handle, handle) {
                    (Some(a), Some(b)) => a@ == b@,
                    (None, None) => true,
                    _ => false,
                },
                Err(e) => QdiscKind::spec_parse(kind@) == Err::<QdiscKind, Seq<char>>(e@),
            },
    {
        match QdiscKind::parse(kind) {
            Ok(kind) => Ok(
                QdiscProfile {
                    kind,
                    handle: match handle {
                        Some(h) => Some(h.to_owned()),
                        None => None,
                    },
                    parent: None,
                    params: params.duplicate(),
                },
            ),
            Err(e) => Err(e),
        }
    }

    /// Whether `r` is what a request for a profile made of `kind`, `handle`
    /// and `params` on `iface` gives: the report of an unknown kind, else an
    /// answer of the driver to the request to install that profile.
    pub open spec fn spec_applied_custom(
        &self,
        iface: Seq<char>,
        kind: Seq<char>,
        handle: Option<Seq<char>>,
        params: Seq<(Seq<char>, String)>,
        r: Result<(), String>,
    ) -> bool {
        match QdiscKind::spec_parse(kind) {
            Err(e) => r matches Err(got) && got@ == e,
            Ok(k) => exists|p: QdiscProfile|
                #![trigger self.driver_answers_replace(iface, p, r)]
                p.kind == k && p.parent is None && p.params@ == params && (match (p.handle, handle) {
                    (Some(a), Some(b)) => a@ == b,
                    (None, None) => true,
                    _ => false,
                }) && self.driver_answers_replace(iface, p, r),
        }
    }

    /// Asks the driver to install a profile made of `kind`, `handle` and
    /// `params` on `iface` and hands on its answer; an unknown kind is
    /// reported without asking.
    pub fn apply_custom_for_interface(
        &self,
        iface: &str,
        kind: &str,
        handle: Option<&str>,
        params: &TextMap<String>,
    ) -> (r: Result<(), String>)
        ensures
            self.spec_applied_custom(
                iface@,
                kind@,
                match handle {
                    Some(h) => Some(h@),
                    None => None,
                },
                params@,
                r,
            ),
            QdiscKind::spec_parse(kind@) matches Err(e) ==> r matches Err(got) && got@ == e,
    {
        match Self::custom_profile(kind, handle, params) {
            Ok(profile) => self.apply_profile_for_interface(iface, &profile),
            Err(e) => Err(e),
        }
    }

    /// Asks the driver for the statistics of `iface` and hands on its
    /// answer.
    pub fn stats_for_interface(&self, iface: &str) -> (r: Result<QdiscRuntimeStats, String>)
        ensures
            self.driver_answers_stats(iface@, r),
    {
        self.driver.show_stats(iface)
    }
}

} // verus!
