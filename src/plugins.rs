use vstd::prelude::*;
use crate::plugin::{
    bool_of, string_to_bool, ParamsGet, PluginInterface, PARAMS_FAULT_TOLERANT, PARAMS_GET_CMDS_KEY,
    PARAMS_GET_VERS_KEY, PARAMS_PRIVILEGED,
};
use crate::string_map::StringMap;
use crate::text::str_eq;

verus! {

/// Version that the example plugins report.
pub const PLUGIN_VERS: &'static str = "1.0.0.0";

/// Whether a configuration sets a flag: `Some(value)` when `key` holds a boolean,
/// `None` when `key` is absent; `Err` when it holds something else.
pub open spec fn flag_setting(params: Map<Seq<char>, Seq<char>>, key: Seq<char>) -> Result<
    Option<bool>,
    (),
> {
    if !params.contains_key(key) {
        Ok(None)
    } else {
        match bool_of(params[key]) {
            Some(b) => Ok(Some(b)),
            None => Err(()),
        }
    }
}

pub open spec fn updated(flag: bool, setting: Result<Option<bool>, ()>) -> bool {
    match setting {
        Ok(Some(b)) => b,
        _ => flag,
    }
}

/// State that the example plugins share.
pub struct PluginCore {
    pub initialized: bool,
    pub enabled: bool,
    pub privileged: bool,
    pub fault_tolerant: bool,
    pub result: String,
}

impl PluginCore {
    pub fn new() -> (r: PluginCore)
        ensures
            !r.initialized && !r.enabled && !r.privileged && !r.fault_tolerant,
            r.result@ == Seq::<char>::empty(),
    {
        PluginCore {
            initialized: false,
            enabled: false,
            privileged: false,
            fault_tolerant: false,
            result: String::new(),
        }
    }

    /// Applies `FAULT_TOLERANT` and then `PRIVILEGED`; stops at the first that holds no
    /// boolean.
    pub fn configure(&mut self, params: &StringMap) -> (r: bool)
        ensures
            ({
                let ft = flag_setting(params@, PARAMS_FAULT_TOLERANT@);
                let pr = flag_setting(params@, PARAMS_PRIVILEGED@);
                &&& r == (ft is Ok && pr is Ok)
                &&& final(self).fault_tolerant == updated(old(self).fault_tolerant, ft)
                &&& final(self).privileged == if ft is Ok {
                    updated(old(self).privileged, pr)
                } else {
                    old(self).privileged
                }
                &&& final(self).initialized == old(self).initialized
                &&& final(self).enabled == old(self).enabled
                &&& final(self).result == old(self).result
            }),
    {
        if let Some(v) = params.get(PARAMS_FAULT_TOLERANT) {
            if !string_to_bool(v.as_str(), &mut self.fault_tolerant) {
                return false;
            }
        }
        if let Some(v) = params.get(PARAMS_PRIVILEGED) {
            if !string_to_bool(v.as_str(), &mut self.privileged) {
                return false;
            }
        }
        true
    }

    /// The command names, the version.
    pub fn params(names: Vec<String>) -> (r: ParamsGet)
        ensures
            r@.len() == 2,
            r@[0].0@ == PARAMS_GET_CMDS_KEY@,
            r@[0].1 == names,
            r@[1].0@ == PARAMS_GET_VERS_KEY@,
            r@[1].1@.len() == 1,
            r@[1].1@[0]@ == PLUGIN_VERS@,
    {
        let mut vers: Vec<String> = Vec::new();
        vers.push(PLUGIN_VERS.to_owned());
        let mut r: ParamsGet = Vec::new();
        r.push((PARAMS_GET_CMDS_KEY.to_owned(), names));
        r.push((PARAMS_GET_VERS_KEY.to_owned(), vers));
        r
    }
}

/// The example plugin `UTILS`: `UECHO` keeps its arguments as the result, `URESET`
/// empties the result, `UPRINT` does nothing else.
pub struct UtilsPlugin {
    pub core: PluginCore,
}

impl UtilsPlugin {
    pub fn new() -> (r: UtilsPlugin)
        ensures
            !r.core.initialized && !r.core.enabled && !r.core.privileged && !r.core.fault_tolerant,
            r.core.result@ == Seq::<char>::empty(),
    {
        UtilsPlugin { core: PluginCore::new() }
    }

    /// The commands, in the order they are listed.
    pub fn command_names(&self) -> (r: Vec<String>)
        ensures
            r@.len() == 3,
            r@[0]@ == "UECHO"@,
            r@[1]@ == "URESET"@,
            r@[2]@ == "UPRINT"@,
    {
        let mut r: Vec<String> = Vec::new();
        r.push("UECHO".to_owned());
        r.push("URESET".to_owned());
        r.push("UPRINT".to_owned());
        r
    }

    #[allow(non_snake_case)]
    pub fn UECHO(&mut self, args: &str) -> (r: bool)
        ensures
            r,
            final(self).core.result@ == args@,
            final(self).core.enabled == old(self).core.enabled,
            final(self).core.initialized == old(self).core.initialized,
            final(self).core.privileged == old(self).core.privileged,
            final(self).core.fault_tolerant == old(self).core.fault_tolerant,
    {
        self.core.result = args.to_owned();
        true
    }

    #[allow(non_snake_case)]
    pub fn URESET(&mut self, _args: &str) -> (r: bool)
        ensures
            r,
            final(self).core.result@ == Seq::<char>::empty(),
            final(self).core.enabled == old(self).core.enabled,
            final(self).core.initialized == old(self).core.initialized,
            final(self).core.privileged == old(self).core.privileged,
            final(self).core.fault_tolerant == old(self).core.fault_tolerant,
    {
        self.core.result = String::new();
        true
    }

    #[allow(non_snake_case)]
    pub fn UPRINT(&mut self, _args: &str) -> (r: bool)
        ensures
            r,
            *final(self) == *old(self),
    {
        true
    }

    /// Runs a command by name; false for a name that is no command.
    pub fn dispatch(&mut self, cmd: &str, args: &str) -> (r: bool)
        ensures
            r == (cmd@ == "UECHO"@ || cmd@ == "URESET"@ || cmd@ == "UPRINT"@),
            final(self).core.result@ == if cmd@ == "UECHO"@ {
                args@
            } else if cmd@ == "URESET"@ {
                Seq::<char>::empty()
            } else {
                old(self).core.result@
            },
            final(self).core.enabled == old(self).core.enabled,
            final(self).core.initialized == old(self).core.initialized,
            final(self).core.privileged == old(self).core.privileged,
            final(self).core.fault_tolerant == old(self).core.fault_tolerant,
    {
        if str_eq(cmd, "UECHO") {
            self.UECHO(args)
        } else if str_eq(cmd, "URESET") {
            self.URESET(args)
        } else if str_eq(cmd, "UPRINT") {
            self.UPRINT(args)
        } else {
            false
        }
    }
}

impl UtilsPlugin {
    /// What the plugin reports: its commands under `cmds`, its version under `vers`.
    pub fn params(&self) -> (r: ParamsGet)
        ensures
            r@.len() == 2,
            r@[0].0@ == PARAMS_GET_CMDS_KEY@,
            r@[0].1@.len() == 3,
            r@[0].1@[0]@ == "UECHO"@,
            r@[0].1@[1]@ == "URESET"@,
            r@[0].1@[2]@ == "UPRINT"@,
            r@[1].0@ == PARAMS_GET_VERS_KEY@,
            r@[1].1@.len() == 1,
            r@[1].1@[0]@ == PLUGIN_VERS@,
    {
        PluginCore::params(self.command_names())
    }
}

impl PluginInterface for UtilsPlugin {
    fn do_init(&mut self) -> bool {
        self.core.initialized = true;
        true
    }

    fn do_enable(&mut self) {
        self.core.enabled = true;
    }

    fn do_dispatch(&mut self, cmd: &str, args: &str) -> bool {
        self.dispatch(cmd, args)
    }

    fn do_cleanup(&mut self) {
    }

    fn set_params(&mut self, params: &StringMap) -> bool {
        self.core.configure(params)
    }

    fn get_params(&self, params: &mut ParamsGet) {
        *params = self.params();
    }

    fn get_data(&self) -> String {
        self.core.result.clone()
    }

    fn reset_data(&mut self) {
        self.core.result = String::new();
    }

    fn is_initialized(&self) -> bool {
        self.core.initialized
    }

    fn is_enabled(&self) -> bool {
        self.core.enabled
    }

    fn is_privileged(&self) -> bool {
        self.core.privileged
    }

    fn is_fault_tolerant(&self) -> bool {
        self.core.fault_tolerant
    }
}

/// The example plugin `MATH`: `MECHO` keeps its arguments as the result, `MRESET`
/// empties the result, `MPRINT` does nothing else. Configuring it also initialises it.
pub struct MathPlugin {
    pub core: PluginCore,
}

impl MathPlugin {
    pub fn new() -> (r: MathPlugin)
        ensures
            !r.core.initialized && !r.core.enabled && !r.core.privileged && !r.core.fault_tolerant,
            r.core.result@ == Seq::<char>::empty(),
    {
        MathPlugin { core: PluginCore::new() }
    }

    /// The commands, in the order they are listed.
    pub fn command_names(&self) -> (r: Vec<String>)
        ensures
            r@.len() == 3,
            r@[0]@ == "MECHO"@,
            r@[1]@ == "MRESET"@,
            r@[2]@ == "MPRINT"@,
    {
        let mut r: Vec<String> = Vec::new();
        r.push("MECHO".to_owned());
        r.push("MRESET".to_owned());
        r.push("MPRINT".to_owned());
        r
    }

    #[allow(non_snake_case)]
    pub fn MECHO(&mut self, args: &str) -> (r: bool)
        ensures
            r,
            final(self).core.result@ == args@,
            final(self).core.enabled == old(self).core.enabled,
            final(self).core.initialized == old(self).core.initialized,
            final(self).core.privileged == old(self).core.privileged,
            final(self).core.fault_tolerant == old(self).core.fault_tolerant,
    {
        self.core.result = args.to_owned();
        true
    }

    #[allow(non_snake_case)]
    pub fn MRESET(&mut self, _args: &str) -> (r: bool)
        ensures
            r,
            final(self).core.result@ == Seq::<char>::empty(),
            final(self).core.enabled == old(self).core.enabled,
            final(self).core.initialized == old(self).core.initialized,
            final(self).core.privileged == old(self).core.privileged,
            final(self).core.fault_tolerant == old(self).core.fault_tolerant,
    {
        self.core.result = String::new();
        true
    }

    #[allow(non_snake_case)]
    pub fn MPRINT(&mut self, _args: &str) -> (r: bool)
        ensures
            r,
            *final(self) == *old(self),
    {
        true
    }

    /// Runs a command by name; false for a name that is no command.
    pub fn dispatch(&mut self, cmd: &str, args: &str) -> (r: bool)
        ensures
            r == (cmd@ == "MECHO"@ || cmd@ == "MRESET"@ || cmd@ == "MPRINT"@),
            final(self).core.result@ == if cmd@ == "MECHO"@ {
                args@
            } else if cmd@ == "MRESET"@ {
                Seq::<char>::empty()
            } else {
                old(self).core.result@
            },
            final(self).core.enabled == old(self).core.enabled,
            final(self).core.initialized == old(self).core.initialized,
            final(self).core.privileged == old(self).core.privileged,
            final(self).core.fault_tolerant == old(self).core.fault_tolerant,
    {
        if str_eq(cmd, "MECHO") {
            self.MECHO(args)
        } else if str_eq(cmd, "MRESET") {
            self.MRESET(args)
        } else if str_eq(cmd, "MPRINT") {
            self.MPRINT(args)
        } else {
            false
        }
    }

    /// Applies the configuration; a valid one also initialises the plugin.
    pub fn configure(&mut self, params: &StringMap) -> (r: bool)
        ensures
            r ==> final(self).core.initialized,
            !r ==> final(self).core.initialized == old(self).core.initialized,
            r == (flag_setting(params@, PARAMS_FAULT_TOLERANT@) is Ok && flag_setting(
                params@,
                PARAMS_PRIVILEGED@,
            ) is Ok),
            final(self).core.fault_tolerant == updated(
                old(self).core.fault_tolerant,
                flag_setting(params@, PARAMS_FAULT_TOLERANT@),
            ),
    {
        if !self.core.configure(params) {
            return false;
        }
        self.core.initialized = true;
        true
    }
}

impl MathPlugin {
    /// What the plugin reports: its commands under `cmds`, its version under `vers`.
    pub fn params(&self) -> (r: ParamsGet)
        ensures
            r@.len() == 2,
            r@[0].0@ == PARAMS_GET_CMDS_KEY@,
            r@[0].1@.len() == 3,
            r@[0].1@[0]@ == "MECHO"@,
            r@[0].1@[1]@ == "MRESET"@,
            r@[0].1@[2]@ == "MPRINT"@,
            r@[1].0@ == PARAMS_GET_VERS_KEY@,
            r@[1].1@.len() == 1,
            r@[1].1@[0]@ == PLUGIN_VERS@,
    {
        PluginCore::params(self.command_names())
    }
}

impl PluginInterface for MathPlugin {
    fn do_init(&mut self) -> bool {
        true
    }

    fn do_enable(&mut self) {
        self.core.enabled = true;
    }

    fn do_dispatch(&mut self, cmd: &str, args: &str) -> bool {
        self.dispatch(cmd, args)
    }

    fn do_cleanup(&mut self) {
    }

    fn set_params(&mut self, params: &StringMap) -> bool {
        self.configure(params)
    }

    fn get_params(&self, params: &mut ParamsGet) {
        *params = self.params();
    }

    fn get_data(&self) -> String {
        self.core.result.clone()
    }

    fn reset_data(&mut self) {
        self.core.result = String::new();
    }

    fn is_initialized(&self) -> bool {
        self.core.initialized
    }

    fn is_enabled(&self) -> bool {
        self.core.enabled
    }

    fn is_privileged(&self) -> bool {
        self.core.privileged
    }

    fn is_fault_tolerant(&self) -> bool {
        self.core.fault_tolerant
    }
}

impl Default for UtilsPlugin {
    fn default() -> (r: UtilsPlugin)
        ensures
            !r.core.initialized && !r.core.enabled && !r.core.privileged && !r.core.fault_tolerant,
            r.core.result@ == Seq::<char>::empty(),
    {
        UtilsPlugin::new()
    }
}

impl Default for MathPlugin {
    fn default() -> (r: MathPlugin)
        ensures
            !r.core.initialized && !r.core.enabled && !r.core.privileged && !r.core.fault_tolerant,
            r.core.result@ == Seq::<char>::empty(),
    {
        MathPlugin::new()
    }
}

} // verus!
