use vstd::prelude::*;
use crate::ini::{resolved_section, IniParserEx};
use crate::plugin::{plugin_dispatch, ParamsGet, PluginInterface};
use crate::text::str_eq;
use crate::validator::ValidateError;

verus! {

/// Depth to which a plugin's INI section is resolved.
pub const INI_SEARCH_DEPTH: usize = 5;

pub open spec fn names_of<P>(v: Seq<(String, P)>) -> Seq<Seq<char>> {
    v.map_values(|e: (String, P)| e.0@)
}

/// A call that the manager makes on a plugin, with what the plugin answered.
pub enum PluginCall {
    /// `set_params` with the resolved INI section.
    SetParams { plugin: Seq<char>, params: Map<Seq<char>, Seq<char>>, ok: bool },
    /// `do_init`.
    Init { plugin: Seq<char>, ok: bool },
    /// `do_enable`, then `is_enabled`.
    Enable { plugin: Seq<char>, enabled: bool },
    /// A dispatch (see `plugin_dispatch`).
    Dispatch { plugin: Seq<char>, command: Seq<char>, args: Seq<char>, ok: bool },
}

/// Whether a call succeeded.
pub open spec fn call_ok(e: PluginCall) -> bool {
    match e {
        PluginCall::SetParams { ok, .. } => ok,
        PluginCall::Init { ok, .. } => ok,
        PluginCall::Enable { enabled, .. } => enabled,
        PluginCall::Dispatch { ok, .. } => ok,
    }
}

/// `e` is `set_params` on `name` with `params`.
pub open spec fn is_set_params(e: PluginCall, name: Seq<char>, params: Map<Seq<char>, Seq<char>>) -> bool {
    match e {
        PluginCall::SetParams { plugin, params: p, .. } => plugin == name && p == params,
        _ => false,
    }
}

/// `e` is `do_init` on `name`.
pub open spec fn is_init(e: PluginCall, name: Seq<char>) -> bool {
    match e {
        PluginCall::Init { plugin, .. } => plugin == name,
        _ => false,
    }
}

/// `e` is `do_enable` on `name`.
pub open spec fn is_enable(e: PluginCall, name: Seq<char>) -> bool {
    match e {
        PluginCall::Enable { plugin, .. } => plugin == name,
        _ => false,
    }
}

/// The calls that loading plugin `name` makes when the configuration is `ini`: `set_params`
/// with its resolved section if the configuration has one, then, unless that failed,
/// `do_init`.
pub open spec fn load_calls(ini: Map<Seq<char>, Map<Seq<char>, Seq<char>>>, name: Seq<char>, evs: Seq<PluginCall>) -> bool {
    if ini.contains_key(name) {
        &&& evs.len() >= 1
        &&& is_set_params(evs[0], name, resolved_section(ini, name, INI_SEARCH_DEPTH as nat))
        &&& if call_ok(evs[0]) {
            evs.len() == 2 && is_init(evs[1], name)
        } else {
            evs.len() == 1
        }
    } else {
        evs.len() == 1 && is_init(evs[0], name)
    }
}

/// Whether the last of `evs` succeeded.
pub open spec fn last_ok(evs: Seq<PluginCall>) -> bool {
    evs.len() > 0 && call_ok(evs.last())
}

/// The calls of `enable_plugins` on plugins `names`: one `Enable` each, in order, stopping
/// after the first plugin that does not report itself enabled.
pub open spec fn enable_calls(names: Seq<Seq<char>>, evs: Seq<PluginCall>) -> bool {
    &&& evs.len() <= names.len()
    &&& forall|i: int| 0 <= i < evs.len() ==> is_enable(#[trigger] evs[i], names[i]) && (i + 1 < evs.len() ==> call_ok(evs[i]))
    &&& evs.len() < names.len() ==> !last_ok(evs)
}

/// The loaded plugins, by name, with the configuration they are set up from.
pub struct PluginManager<P> {
    plugins: Vec<(String, P)>,
    iniparser: IniParserEx,
    calls: Ghost<Seq<PluginCall>>,
}

impl<P: PluginInterface> PluginManager<P> {
    /// Names of the loaded plugins, in the order they were loaded.
    pub closed spec fn names(&self) -> Seq<Seq<char>> {
        names_of(self.plugins@)
    }

    /// The calls made on plugins so far, in order.
    pub closed spec fn calls(&self) -> Seq<PluginCall> {
        self.calls@
    }

    /// The configuration.
    pub closed spec fn ini(&self) -> Map<Seq<char>, Map<Seq<char>, Seq<char>>> {
        self.iniparser@
    }

    pub fn new(iniparser: IniParserEx) -> (r: PluginManager<P>)
        ensures
            r.names() == Seq::<Seq<char>>::empty(),
            r.ini() == iniparser@,
            r.calls() == Seq::<PluginCall>::empty(),
    {
        let r = PluginManager { plugins: Vec::new(), iniparser, calls: Ghost(Seq::empty()) };
        assert(r.names() =~= Seq::<Seq<char>>::empty());
        r
    }

    /// The configuration.
    pub fn iniparser(&self) -> (r: &IniParserEx)
        ensures
            r@ == self.ini(),
    {
        &self.iniparser
    }

    /// Position of plugin `name`.
    fn find(&self, name: &str) -> (r: Option<usize>)
        ensures
            match r {
                Some(i) => i < self.names().len() && self.names()[i as int] == name@,
                None => !self.names().contains(name@),
            },
    {
        let mut i: usize = 0;
        while i < self.plugins.len()
            invariant
                i <= self.plugins@.len(),
                self.names().len() == self.plugins@.len(),
                forall|k: int| 0 <= k < i ==> self.names()[k] != name@,
            decreases self.plugins@.len() - i,
        {
            if str_eq(self.plugins[i].0.as_str(), name) {
                return Some(i);
            }
            i = i + 1;
        }
        None
    }

    /// Whether plugin `name` is loaded.
    pub fn contains(&self, name: &str) -> (r: bool)
        ensures
            r == self.names().contains(name@),
    {
        self.find(name).is_some()
    }

    /// Number of loaded plugins.
    pub fn len(&self) -> (r: usize)
        ensures
            r == self.names().len(),
    {
        self.plugins.len()
    }

    /// Sets `plugin` up and keeps it under `name`: it gets its INI section, resolved, if
    /// there is one, and is then initialised (see `load_calls`). A plugin already kept
    /// under `name` is replaced. When a step fails the plugin is dropped and nothing is
    /// kept.
    pub fn load_plugin(&mut self, name: &str, plugin: P) -> (r: Result<(), ValidateError>)
        ensures
            final(self).ini() == old(self).ini(),
            old(self).calls().is_prefix_of(final(self).calls()),
            load_calls(old(self).ini(), name@, final(self).calls().subrange(old(self).calls().len() as int, final(self).calls().len() as int)),
            r is Ok <==> last_ok(final(self).calls().subrange(old(self).calls().len() as int, final(self).calls().len() as int)),
            r is Ok ==> if old(self).names().contains(name@) {
                final(self).names() == old(self).names()
            } else {
                final(self).names() == old(self).names().push(name@)
            },
            r is Err ==> final(self).names() == old(self).names(),
            r is Err ==> (r matches Err(ValidateError::PluginLoadingFailed { plugin }) && plugin@
                == name@),
            old(self).names().no_duplicates() ==> final(self).names().no_duplicates(),
    {
        let ghost c0 = self.calls@;
        let mut plugin = plugin;
        if let Some(section) = self.iniparser.get_resolved_section(name, INI_SEARCH_DEPTH) {
            let ok = plugin.set_params(&section);
            self.calls = Ghost(self.calls@.push(PluginCall::SetParams { plugin: name@, params: section@, ok }));
            if !ok {
                proof {
                    assert(self.calls@.subrange(c0.len() as int, self.calls@.len() as int) =~= seq![self.calls@.last()]);
                }
                return Err(ValidateError::PluginLoadingFailed { plugin: name.to_owned() });
            }
        }
        let ok = plugin.do_init();
        self.calls = Ghost(self.calls@.push(PluginCall::Init { plugin: name@, ok }));
        proof {
            let new = self.calls@.subrange(c0.len() as int, self.calls@.len() as int);
            if self.iniparser@.contains_key(name@) {
                assert(new =~= seq![self.calls@[c0.len() as int], self.calls@.last()]);
            } else {
                assert(new =~= seq![self.calls@.last()]);
            }
        }
        if !ok {
            return Err(ValidateError::PluginLoadingFailed { plugin: name.to_owned() });
        }
        let ghost old_names = self.names();
        match self.find(name) {
            Some(i) => {
                self.plugins.set(i, (name.to_owned(), plugin));
                proof {
                    assert(self.names() =~= old_names.update(i as int, name@));
                    assert(self.names() =~= old_names);
                }
            },
            None => {
                self.plugins.push((name.to_owned(), plugin));
                proof {
                    assert(self.names() =~= old_names.push(name@));
                    if old_names.no_duplicates() {
                        assert forall|a: int, b: int|
                            0 <= a < b < self.names().len() implies self.names()[a] != self.names()[b] by {
                            if b == old_names.len() {
                                assert(old_names.contains(old_names[a]));
                            }
                        }
                    }
                }
            },
        }
        Ok(())
    }

    /// Enables every plugin in turn and checks that it reports itself enabled; stops at
    /// the first that does not (see `enable_calls`). True when every plugin reported itself
    /// enabled.
    pub fn enable_plugins(&mut self) -> (r: bool)
        ensures
            old(self).names().len() == 0 ==> r,
            final(self).names() == old(self).names(),
            final(self).ini() == old(self).ini(),
            old(self).calls().is_prefix_of(final(self).calls()),
            enable_calls(old(self).names(), final(self).calls().subrange(old(self).calls().len() as int, final(self).calls().len() as int)),
            r == (final(self).calls().len() - old(self).calls().len() == old(self).names().len()
                && (old(self).names().len() == 0 || last_ok(final(self).calls().subrange(old(self).calls().len() as int, final(self).calls().len() as int)))),
    {
        let ghost c0 = self.calls@;
        let n = self.plugins.len();
        let mut i: usize = 0;
        while i < n
            invariant
                n == self.plugins@.len(),
                i <= n,
                self.names() == old(self).names(),
                self.ini() == old(self).ini(),
                c0 == old(self).calls(),
                c0.is_prefix_of(self.calls@),
                self.calls@.len() == c0.len() + i,
                forall|k: int| 0 <= k < i ==> is_enable(#[trigger] self.calls@[c0.len() + k], self.names()[k]) && call_ok(self.calls@[c0.len() + k]),
            decreases n - i,
        {
            let ghost before = self.plugins@;
            let (name, mut p) = self.plugins.remove(i);
            p.do_enable();
            let ok = p.is_enabled();
            let ghost nm = name@;
            self.plugins.insert(i, (name, p));
            self.calls = Ghost(self.calls@.push(PluginCall::Enable { plugin: nm, enabled: ok }));
            proof {
                assert(names_of(self.plugins@) =~= names_of(before));
                assert(nm == self.names()[i as int]);
                let new = self.calls@.subrange(c0.len() as int, self.calls@.len() as int);
                assert(forall|k: int| 0 <= k < new.len() ==> new[k] == self.calls@[c0.len() + k]);
                assert(new.last() == new[i as int]);
                assert(is_enable(new[i as int], self.names()[i as int]));
                if !ok {
                    assert(enable_calls(self.names(), new));
                }
            }
            if !ok {
                return false;
            }
            i = i + 1;
        }
        proof {
            let new = self.calls@.subrange(c0.len() as int, self.calls@.len() as int);
            assert(forall|k: int| 0 <= k < new.len() ==> new[k] == self.calls@[c0.len() + k]);
            if n == 0 {
                assert(self.calls@ =~= c0);
            } else {
                assert(new.last() == new[n - 1]);
            }
            assert(enable_calls(self.names(), new));
        }
        true
    }

    /// Runs `cmd` with `args` on plugin `plugin` (see `plugin_dispatch`); `None` when no
    /// such plugin is loaded. The call is recorded with its outcome.
    pub fn dispatch(&mut self, plugin: &str, cmd: &str, args: &str) -> (r: Option<bool>)
        ensures
            r is None <==> !old(self).names().contains(plugin@),
            final(self).names() == old(self).names(),
            final(self).ini() == old(self).ini(),
            final(self).calls() == match r {
                None => old(self).calls(),
                Some(ok) => old(self).calls().push(PluginCall::Dispatch { plugin: plugin@, command: cmd@, args: args@, ok }),
            },
    {
        match self.find(plugin) {
            None => None,
            Some(i) => {
                let ghost before = self.plugins@;
                let (name, mut p) = self.plugins.remove(i);
                let ok = plugin_dispatch(&mut p, cmd, args);
                self.plugins.insert(i, (name, p));
                self.calls = Ghost(self.calls@.push(PluginCall::Dispatch { plugin: plugin@, command: cmd@, args: args@, ok }));
                proof {
                    assert(names_of(self.plugins@) =~= names_of(before));
                    assert(old(self).names().contains(plugin@));
                }
                Some(ok)
            },
        }
    }

    /// The latest result of plugin `plugin`; `None` when no such plugin is loaded.
    pub fn get_data(&self, plugin: &str) -> (r: Option<String>)
        ensures
            r is None <==> !self.names().contains(plugin@),
    {
        match self.find(plugin) {
            None => None,
            Some(i) => {
                assert(self.names().contains(plugin@));
                Some(self.plugins[i].1.get_data())
            },
        }
    }

    /// What plugin `plugin` reports about itself; `None` when no such plugin is loaded.
    pub fn get_params(&self, plugin: &str) -> (r: Option<ParamsGet>)
        ensures
            r is None <==> !self.names().contains(plugin@),
    {
        match self.find(plugin) {
            None => None,
            Some(i) => {
                assert(self.names().contains(plugin@));
                let mut params: ParamsGet = Vec::new();
                self.plugins[i].1.get_params(&mut params);
                Some(params)
            },
        }
    }

    /// Takes every plugin out, in the order they were loaded, for the caller to release.
    pub fn unload_all(&mut self) -> (r: Vec<(String, P)>)
        ensures
            names_of(r@) == old(self).names(),
            final(self).names() == Seq::<Seq<char>>::empty(),
            final(self).ini() == old(self).ini(),
            final(self).calls() == old(self).calls(),
    {
        let mut out: Vec<(String, P)> = Vec::new();
        std::mem::swap(&mut self.plugins, &mut out);
        proof {
            assert(self.names() =~= Seq::<Seq<char>>::empty());
        }
        out
    }
}

/// Each plugin that was loaded is unloaded exactly once: what `unload_all` hands out
/// holds every loaded name once.
pub proof fn lemma_unload_once(loaded: Seq<Seq<char>>, unloaded: Seq<Seq<char>>, name: Seq<char>)
    requires
        loaded.no_duplicates(),
        unloaded == loaded,
        loaded.contains(name),
    ensures
        unloaded.filter(|n: Seq<char>| n == name).len() == 1,
{
    let i = choose|i: int| 0 <= i < loaded.len() && loaded[i] == name;
    lemma_filter_single(loaded, name, i);
}

proof fn lemma_filter_single(s: Seq<Seq<char>>, name: Seq<char>, i: int)
    requires
        s.no_duplicates(),
        0 <= i < s.len(),
        s[i] == name,
    ensures
        s.filter(|n: Seq<char>| n == name).len() == 1,
    decreases s.len(),
{
    let f = |n: Seq<char>| n == name;
    reveal(Seq::filter);
    let t = s.drop_last();
    assert(t.no_duplicates()) by {
        assert forall|a: int, b: int| 0 <= a < t.len() && 0 <= b < t.len() && a != b implies t[a] != t[b] by {
            assert(t[a] == s[a] && t[b] == s[b]);
        }
    }
    if i == s.len() - 1 {
        assert(!t.contains(name)) by {
            if t.contains(name) {
                let k = choose|k: int| 0 <= k < t.len() && t[k] == name;
                assert(s[k] == s[i]);
            }
        }
        lemma_filter_none(t, name);
    } else {
        assert(t[i] == name);
        lemma_filter_single(t, name, i);
        assert(s.last() != name) by {
            assert(s[s.len() - 1] != s[i]);
        }
    }
}

proof fn lemma_filter_none(s: Seq<Seq<char>>, name: Seq<char>)
    requires
        !s.contains(name),
    ensures
        s.filter(|n: Seq<char>| n == name).len() == 0,
    decreases s.len(),
{
    reveal(Seq::filter);
    if s.len() > 0 {
        let t = s.drop_last();
        assert(!t.contains(name)) by {
            if t.contains(name) {
                let k = choose|k: int| 0 <= k < t.len() && t[k] == name;
                assert(s[k] == name);
            }
        }
        lemma_filter_none(t, name);
        assert(s.last() != name) by {
            assert(s[s.len() - 1] == s.last());
        }
    }
}

} // verus!
