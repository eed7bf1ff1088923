use vstd::prelude::*;
use crate::text::str_eq;
use crate::token::{Item, Token, TokenType, kinds};
use crate::manager::PluginManager;
use crate::plugin::{params_lookup, PluginInterface, PARAMS_GET_CMDS_KEY};

verus! {

/// The label that a token jumps to.
pub open spec fn jump_label(t: Token) -> Option<Seq<char>> {
    match t {
        Token::IfGoTo { label, .. } => Some(label),
        _ => None,
    }
}

/// The label that a token defines.
pub open spec fn label_name(t: Token) -> Option<Seq<char>> {
    match t {
        Token::Label { label } => Some(label),
        _ => None,
    }
}

/// Jumps to `l` among the first `n` tokens.
pub open spec fn count_jumps(ts: Seq<Token>, l: Seq<char>, n: int) -> nat
    decreases n,
{
    if n <= 0 {
        0
    } else {
        count_jumps(ts, l, n - 1) + if jump_label(ts[n - 1]) == Some(l) {
            1nat
        } else {
            0nat
        }
    }
}

/// Labels `l` among the first `n` tokens.
pub open spec fn count_labels(ts: Seq<Token>, l: Seq<char>, n: int) -> nat
    decreases n,
{
    if n <= 0 {
        0
    } else {
        count_labels(ts, l, n - 1) + if label_name(ts[n - 1]) == Some(l) {
            1nat
        } else {
            0nat
        }
    }
}

/// Jumps and labels agree: every label has an earlier jump to it that no earlier label
/// answered, and every label that is jumped to answers all its jumps.
pub open spec fn jumps_ok(ts: Seq<Token>) -> bool {
    &&& forall|j: int|
        0 <= j < ts.len() && #[trigger] label_name(ts[j]) is Some ==> count_jumps(
            ts,
            label_name(ts[j])->0,
            j,
        ) > count_labels(ts, label_name(ts[j])->0, j)
    &&& forall|j: int|
        0 <= j < ts.len() && #[trigger] jump_label(ts[j]) is Some ==> count_jumps(
            ts,
            jump_label(ts[j])->0,
            ts.len() as int,
        ) == count_labels(ts, jump_label(ts[j])->0, ts.len() as int)
}

/// The plugin that a token loads.
pub open spec fn loaded_plugin(t: Token) -> Option<Seq<char>> {
    match t {
        Token::LoadPlugin { plugin, .. } => Some(plugin),
        _ => None,
    }
}

/// The plugin and command that a token calls.
pub open spec fn called(t: Token) -> Option<(Seq<char>, Seq<char>)> {
    match t {
        Token::Command { plugin, command, .. } => Some((plugin, command)),
        Token::VariableMacro { plugin, command, .. } => Some((plugin, command)),
        _ => None,
    }
}

/// The plugin that a token calls.
pub open spec fn called_plugin(t: Token) -> Option<Seq<char>> {
    match called(t) {
        Some((p, _)) => Some(p),
        None => None,
    }
}

/// The plugins that `LOAD_PLUGIN` tokens name.
pub open spec fn declared_set(ts: Seq<Token>) -> Set<Seq<char>> {
    Set::new(|p: Seq<char>| exists|i: int| 0 <= i < ts.len() && loaded_plugin(ts[i]) == Some(p))
}

/// The plugins that command tokens call.
pub open spec fn used_set(ts: Seq<Token>) -> Set<Seq<char>> {
    Set::new(
        |p: Seq<char>| exists|i: int| 0 <= i < ts.len() && called_plugin(ts[i]) == Some(p),
    )
}

/// The commands that the tokens call on plugin `p`.
pub open spec fn commands_of(ts: Seq<Token>, p: Seq<char>) -> Set<Seq<char>> {
    Set::new(|c: Seq<char>| exists|i: int| 0 <= i < ts.len() && called(ts[i]) == Some((p, c)))
}

pub open spec fn strs(v: Seq<String>) -> Seq<Seq<char>> {
    v.map_values(|s: String| s@)
}

/// Whether `v` holds `s`.
pub fn contains_str(v: &Vec<String>, s: &str) -> (r: bool)
    ensures
        r == strs(v@).contains(s@),
{
    let mut i: usize = 0;
    while i < v.len()
        invariant
            i <= v@.len(),
            forall|k: int| 0 <= k < i ==> v@[k]@ != s@,
        decreases v@.len() - i,
    {
        if str_eq(v[i].as_str(), s) {
            assert(strs(v@)[i as int] == s@);
            return true;
        }
        i = i + 1;
    }
    proof {
        if strs(v@).contains(s@) {
            let k = choose|k: int| 0 <= k < strs(v@).len() && strs(v@)[k] == s@;
            assert(v@[k]@ == s@);
        }
    }
    false
}

/// Adds `s` to `v` unless it is there already.
fn push_unique(v: &mut Vec<String>, s: &str)
    ensures
        strs(final(v)@).to_set() == strs(old(v)@).to_set().insert(s@),
        strs(old(v)@).no_duplicates() ==> strs(final(v)@).no_duplicates(),
{
    if !contains_str(v, s) {
        let ghost before = strs(v@);
        v.push(s.to_owned());
        proof {
            assert(strs(v@) =~= before.push(s@));
            assert(strs(v@).to_set() =~= before.to_set().insert(s@)) by {
                assert forall|x: Seq<char>| #[trigger] strs(v@).to_set().contains(x) <==> before.to_set().insert(s@).contains(x) by {
                    if strs(v@).contains(x) {
                        let k = choose|k: int| 0 <= k < strs(v@).len() && strs(v@)[k] == x;
                        if k < before.len() {
                            assert(before[k] == x);
                        }
                    }
                    if before.contains(x) {
                        let k = choose|k: int| 0 <= k < before.len() && before[k] == x;
                        assert(strs(v@)[k] == x);
                    }
                    if x == s@ {
                        assert(strs(v@)[before.len() as int] == x);
                    }
                }
            }
        }
    } else {
        proof {
            assert(strs(v@).to_set() =~= strs(v@).to_set().insert(s@));
        }
    }
}

/// The reasons a script is refused.
#[derive(Debug)]
pub enum ValidateError {
    /// The plugins that the script declares and those it calls differ.
    PluginNotSetForLoading,
    /// A plugin could not be loaded, configured or initialised.
    PluginLoadingFailed { plugin: String },
    /// A plugin does not offer every command that the script calls on it.
    PluginCommandAvailability { plugin: String, commands: Vec<String> },
    /// Jumps and labels do not agree.
    JumpsLabelMismatch,
}

/// The plugins that a script declares, and the commands it calls on each.
pub struct PluginUse {
    pub plugins: Vec<String>,
    pub commands: Vec<Vec<String>>,
}

impl PluginUse {
    /// The plugins hold the declared set once each, and the commands of each are the set
    /// the tokens call on it.
    pub open spec fn describes(&self, ts: Seq<Token>) -> bool {
        &&& strs(self.plugins@).to_set() == declared_set(ts)
        &&& strs(self.plugins@).no_duplicates()
        &&& self.commands@.len() == self.plugins@.len()
        &&& forall|i: int|
            0 <= i < self.plugins@.len() ==> strs(#[trigger] self.commands@[i]@).to_set()
                == commands_of(ts, self.plugins@[i]@)
    }
}

/// Checks scripts before they run.
pub struct ScriptValidator;

impl ScriptValidator {
    pub fn new() -> (r: ScriptValidator) {
        ScriptValidator
    }

    /// Whether jumps and labels agree (see `jumps_ok`).
    pub fn validate_jumps(&self, items: &Vec<Item>) -> (r: bool)
        ensures
            r == jumps_ok(kinds(items@)),
    {
        let ghost ts = kinds(items@);
        let n = items.len();
        let mut j: usize = 0;
        while j < n
            invariant
                n == items@.len(),
                ts == kinds(items@),
                j <= n,
                forall|k: int|
                    0 <= k < j && #[trigger] label_name(ts[k]) is Some ==> count_jumps(
                        ts,
                        label_name(ts[k])->0,
                        k,
                    ) > count_labels(ts, label_name(ts[k])->0, k),
                forall|k: int|
                    0 <= k < j && #[trigger] jump_label(ts[k]) is Some ==> count_jumps(
                        ts,
                        jump_label(ts[k])->0,
                        n as int,
                    ) == count_labels(ts, jump_label(ts[k])->0, n as int),
            decreases n - j,
        {
            assert(ts[j as int] == items@[j as int].token_type@);
            match &items[j].token_type {
                TokenType::Label { label } => {
                    let (jc, lc) = count_upto(items, label.as_str(), j);
                    if jc <= lc {
                        assert(label_name(ts[j as int]) is Some);
                        return false;
                    }
                },
                TokenType::IfGoTo { label, .. } => {
                    let (jc, lc) = count_upto(items, label.as_str(), n);
                    if jc != lc {
                        assert(jump_label(ts[j as int]) is Some);
                        return false;
                    }
                },
                _ => {},
            }
            j = j + 1;
        }
        true
    }

    /// Whether the plugins that the script declares are exactly those it calls.
    pub fn validate_plugins_availability(&self, items: &Vec<Item>) -> (r: bool)
        ensures
            r == (declared_set(kinds(items@)) == used_set(kinds(items@))),
    {
        let ghost ts = kinds(items@);
        let declared = declared_plugins(items);
        let used = used_plugins(items);
        let mut ok = true;
        let mut i: usize = 0;
        while i < declared.len()
            invariant
                i <= declared@.len(),
                strs(declared@).to_set() == declared_set(ts),
                strs(used@).to_set() == used_set(ts),
                ok == forall|k: int| 0 <= k < i ==> used_set(ts).contains(#[trigger] declared@[k]@),
            decreases declared@.len() - i,
        {
            if !contains_str(&used, declared[i].as_str()) {
                ok = false;
            }
            proof {
                assert(strs(used@).contains(declared@[i as int]@) == used_set(ts).contains(declared@[i as int]@));
            }
            i = i + 1;
        }
        let mut k: usize = 0;
        let mut ok2 = true;
        while k < used.len()
            invariant
                k <= used@.len(),
                strs(declared@).to_set() == declared_set(ts),
                strs(used@).to_set() == used_set(ts),
                ok2 == forall|m: int| 0 <= m < k ==> declared_set(ts).contains(#[trigger] used@[m]@),
            decreases used@.len() - k,
        {
            if !contains_str(&declared, used[k].as_str()) {
                ok2 = false;
            }
            proof {
                assert(strs(declared@).contains(used@[k as int]@) == declared_set(ts).contains(used@[k as int]@));
            }
            k = k + 1;
        }
        proof {
            if ok && ok2 {
                assert forall|p: Seq<char>| declared_set(ts).contains(p) <==> used_set(ts).contains(p) by {
                    if declared_set(ts).contains(p) {
                        assert(strs(declared@).contains(p));
                        let m = choose|m: int| 0 <= m < strs(declared@).len() && strs(declared@)[m] == p;
                        assert(declared@[m]@ == p);
                    }
                    if used_set(ts).contains(p) {
                        assert(strs(used@).contains(p));
                        let m = choose|m: int| 0 <= m < strs(used@).len() && strs(used@)[m] == p;
                        assert(used@[m]@ == p);
                    }
                }
                assert(declared_set(ts) =~= used_set(ts));
            }
            if declared_set(ts) == used_set(ts) {
                assert forall|m: int| 0 <= m < declared@.len() implies used_set(ts).contains(#[trigger] declared@[m]@) by {
                    assert(strs(declared@)[m] == declared@[m]@);
                }
                assert forall|m: int| 0 <= m < used@.len() implies declared_set(ts).contains(#[trigger] used@[m]@) by {
                    assert(strs(used@)[m] == used@[m]@);
                }
            }
        }
        ok && ok2
    }
}

/// Jumps to and labels of `label` among the first `upto` tokens.
fn count_upto(items: &Vec<Item>, label: &str, upto: usize) -> (r: (usize, usize))
    requires
        upto <= items@.len(),
    ensures
        r.0 == count_jumps(kinds(items@), label@, upto as int),
        r.1 == count_labels(kinds(items@), label@, upto as int),
{
    let ghost ts = kinds(items@);
    let mut jc: usize = 0;
    let mut lc: usize = 0;
    let mut i: usize = 0;
    while i < upto
        invariant
            upto <= items@.len(),
            ts == kinds(items@),
            i <= upto,
            jc == count_jumps(ts, label@, i as int),
            lc == count_labels(ts, label@, i as int),
            jc <= i,
            lc <= i,
        decreases upto - i,
    {
        match &items[i].token_type {
            TokenType::IfGoTo { label: l, .. } => {
                if str_eq(l.as_str(), label) {
                    jc = jc + 1;
                }
            },
            TokenType::Label { label: l } => {
                if str_eq(l.as_str(), label) {
                    lc = lc + 1;
                }
            },
            _ => {},
        }
        i = i + 1;
    }
    (jc, lc)
}

/// The plugins that `LOAD_PLUGIN` tokens name, each once, in order.
pub fn declared_plugins(items: &Vec<Item>) -> (r: Vec<String>)
    ensures
        strs(r@).to_set() == declared_set(kinds(items@)),
        strs(r@).no_duplicates(),
{
    let ghost ts = kinds(items@);
    let mut r: Vec<String> = Vec::new();
    let mut i: usize = 0;
    proof {
        assert(strs(r@).to_set() =~= Set::<Seq<char>>::empty());
    }
    while i < items.len()
        invariant
            ts == kinds(items@),
            i <= items@.len(),
            strs(r@).no_duplicates(),
            strs(r@).to_set() == Set::new(
                |p: Seq<char>| exists|k: int| 0 <= k < i && loaded_plugin(ts[k]) == Some(p),
            ),
        decreases items@.len() - i,
    {
        let ghost before = strs(r@).to_set();
        assert(ts[i as int] == items@[i as int].token_type@);
        if let TokenType::LoadPlugin { plugin, .. } = &items[i].token_type {
            push_unique(&mut r, plugin.as_str());
        }
        proof {
            assert(strs(r@).to_set() =~= Set::new(
                |p: Seq<char>| exists|k: int| 0 <= k < i + 1 && loaded_plugin(ts[k]) == Some(p),
            )) by {
                assert forall|p: Seq<char>| #[trigger] strs(r@).to_set().contains(p) <==> (exists|k: int| 0 <= k < i + 1 && loaded_plugin(ts[k]) == Some(p)) by {
                    if exists|k: int| 0 <= k < i + 1 && loaded_plugin(ts[k]) == Some(p) {
                        let k = choose|k: int| 0 <= k < i + 1 && loaded_plugin(ts[k]) == Some(p);
                        if k < i {
                            assert(before.contains(p));
                        }
                    }
                    if before.contains(p) {
                        let k = choose|k: int| 0 <= k < i && loaded_plugin(ts[k]) == Some(p);
                        assert(0 <= k < i + 1);
                    }
                }
            }
        }
        i = i + 1;
    }
    proof {
        assert(strs(r@).to_set() =~= declared_set(ts));
    }
    r
}

/// The plugins that command tokens call, each once, in order.
pub fn used_plugins(items: &Vec<Item>) -> (r: Vec<String>)
    ensures
        strs(r@).to_set() == used_set(kinds(items@)),
        strs(r@).no_duplicates(),
{
    let ghost ts = kinds(items@);
    let mut r: Vec<String> = Vec::new();
    let mut i: usize = 0;
    proof {
        assert(strs(r@).to_set() =~= Set::<Seq<char>>::empty());
    }
    while i < items.len()
        invariant
            ts == kinds(items@),
            i <= items@.len(),
            strs(r@).no_duplicates(),
            strs(r@).to_set() == Set::new(
                |p: Seq<char>| exists|k: int| 0 <= k < i && called_plugin(ts[k]) == Some(p),
            ),
        decreases items@.len() - i,
    {
        let ghost before = strs(r@).to_set();
        assert(ts[i as int] == items@[i as int].token_type@);
        match &items[i].token_type {
            TokenType::Command { plugin, .. } => {
                push_unique(&mut r, plugin.as_str());
            },
            TokenType::VariableMacro { plugin, .. } => {
                push_unique(&mut r, plugin.as_str());
            },
            _ => {},
        }
        proof {
            assert(strs(r@).to_set() =~= Set::new(
                |p: Seq<char>| exists|k: int| 0 <= k < i + 1 && called_plugin(ts[k]) == Some(p),
            )) by {
                assert forall|p: Seq<char>| #[trigger] strs(r@).to_set().contains(p) <==> (exists|k: int| 0 <= k < i + 1 && called_plugin(ts[k]) == Some(p)) by {
                    if exists|k: int| 0 <= k < i + 1 && called_plugin(ts[k]) == Some(p) {
                        let k = choose|k: int| 0 <= k < i + 1 && called_plugin(ts[k]) == Some(p);
                        if k < i {
                            assert(before.contains(p));
                        }
                    }
                    if before.contains(p) {
                        let k = choose|k: int| 0 <= k < i && called_plugin(ts[k]) == Some(p);
                        assert(0 <= k < i + 1);
                    }
                }
            }
        }
        i = i + 1;
    }
    proof {
        assert(strs(r@).to_set() =~= used_set(ts));
    }
    r
}

/// The commands that the tokens call on `plugin`, each once, in order.
pub fn commands_used(items: &Vec<Item>, plugin: &str) -> (r: Vec<String>)
    ensures
        strs(r@).to_set() == commands_of(kinds(items@), plugin@),
        strs(r@).no_duplicates(),
{
    let ghost ts = kinds(items@);
    let mut r: Vec<String> = Vec::new();
    let mut i: usize = 0;
    proof {
        assert(strs(r@).to_set() =~= Set::<Seq<char>>::empty());
    }
    while i < items.len()
        invariant
            ts == kinds(items@),
            i <= items@.len(),
            strs(r@).no_duplicates(),
            strs(r@).to_set() == Set::new(
                |c: Seq<char>| exists|k: int| 0 <= k < i && called(ts[k]) == Some((plugin@, c)),
            ),
        decreases items@.len() - i,
    {
        let ghost before = strs(r@).to_set();
        assert(ts[i as int] == items@[i as int].token_type@);
        match &items[i].token_type {
            TokenType::Command { plugin: p, command, .. } => {
                if str_eq(p.as_str(), plugin) {
                    push_unique(&mut r, command.as_str());
                }
            },
            TokenType::VariableMacro { plugin: p, command, .. } => {
                if str_eq(p.as_str(), plugin) {
                    push_unique(&mut r, command.as_str());
                }
            },
            _ => {},
        }
        proof {
            assert(strs(r@).to_set() =~= Set::new(
                |c: Seq<char>| exists|k: int| 0 <= k < i + 1 && called(ts[k]) == Some((plugin@, c)),
            )) by {
                assert forall|c: Seq<char>| #[trigger] strs(r@).to_set().contains(c) <==> (exists|k: int| 0 <= k < i + 1 && called(ts[k]) == Some((plugin@, c))) by {
                    if exists|k: int| 0 <= k < i + 1 && called(ts[k]) == Some((plugin@, c)) {
                        let k = choose|k: int| 0 <= k < i + 1 && called(ts[k]) == Some((plugin@, c));
                        if k < i {
                            assert(before.contains(c));
                        }
                    }
                    if before.contains(c) {
                        let k = choose|k: int| 0 <= k < i && called(ts[k]) == Some((plugin@, c));
                        assert(0 <= k < i + 1);
                    }
                }
            }
        }
        i = i + 1;
    }
    proof {
        assert(strs(r@).to_set() =~= commands_of(ts, plugin@));
    }
    r
}

/// The commands of `used` that `supported` lacks, in the order of `used`.
pub fn unsupported_commands(used: &Vec<String>, supported: &Vec<String>) -> (r: Vec<String>)
    ensures
        forall|c: Seq<char>|
            #[trigger] strs(r@).contains(c) <==> strs(used@).contains(c) && !strs(
                supported@,
            ).contains(c),
{
    let mut r: Vec<String> = Vec::new();
    let mut i: usize = 0;
    while i < used.len()
        invariant
            i <= used@.len(),
            forall|c: Seq<char>|
                #[trigger] strs(r@).contains(c) <==> strs(used@.subrange(0, i as int)).contains(c)
                    && !strs(supported@).contains(c),
        decreases used@.len() - i,
    {
        let ghost before = strs(r@);
        let keep = !contains_str(supported, used[i].as_str());
        if keep {
            r.push(used[i].clone());
        }
        proof {
            let u0 = strs(used@.subrange(0, i as int));
            let u1 = strs(used@.subrange(0, i + 1));
            assert(u1 =~= u0.push(used@[i as int]@));
            if keep {
                assert(strs(r@) =~= before.push(used@[i as int]@));
            }
            assert forall|c: Seq<char>| #[trigger] strs(r@).contains(c) <==> u1.contains(c) && !strs(supported@).contains(c) by {
                if u1.contains(c) {
                    let k = choose|k: int| 0 <= k < u1.len() && u1[k] == c;
                    if k < u0.len() {
                        assert(u0[k] == c);
                    }
                }
                if u0.contains(c) {
                    let k = choose|k: int| 0 <= k < u0.len() && u0[k] == c;
                    assert(u1[k] == c);
                }
                if strs(r@).contains(c) {
                    let k = choose|k: int| 0 <= k < strs(r@).len() && strs(r@)[k] == c;
                    if k < before.len() {
                        assert(before[k] == c);
                    }
                }
                if before.contains(c) {
                    let k = choose|k: int| 0 <= k < before.len() && before[k] == c;
                    assert(strs(r@)[k] == c);
                }
                if keep && c == used@[i as int]@ {
                    assert(strs(r@)[before.len() as int] == c);
                    assert(u1[i as int] == c);
                }
            }
        }
        i = i + 1;
    }
    assert(used@.subrange(0, used@.len() as int) =~= used@);
    r
}

/// A copy of `v`.
pub fn copy_strs(v: &Vec<String>) -> (r: Vec<String>)
    ensures
        strs(r@) == strs(v@),
{
    let mut r: Vec<String> = Vec::new();
    let mut i: usize = 0;
    while i < v.len()
        invariant
            i <= v@.len(),
            strs(r@) == strs(v@.subrange(0, i as int)),
        decreases v@.len() - i,
    {
        r.push(v[i].clone());
        proof {
            assert(strs(v@.subrange(0, i + 1)) =~= strs(v@.subrange(0, i as int)).push(v@[i as int]@));
            assert(strs(r@) =~= strs(v@.subrange(0, i + 1)));
        }
        i = i + 1;
    }
    assert(v@.subrange(0, v@.len() as int) =~= v@);
    r
}

/// Checks the commands that a script calls on `plugin` against those the plugin reports
/// (`None` when it reports no list of commands).
pub fn check_plugin_commands(plugin: &str, used: &Vec<String>, supported: Option<&Vec<String>>) -> (r:
    Result<(), ValidateError>)
    ensures
        match supported {
            None => r matches Err(ValidateError::PluginCommandAvailability { plugin: p, commands })
                && p@ == plugin@ && strs(commands@) == strs(used@),
            Some(sup) => {
                &&& r is Ok <==> forall|c: Seq<char>| #[trigger] strs(used@).contains(c) ==> strs(sup@).contains(c)
                &&& r matches Err(e) ==> e matches ValidateError::PluginCommandAvailability { plugin: p, commands }
                    && p@ == plugin@ && forall|c: Seq<char>| #[trigger] strs(commands@).contains(c)
                    <==> strs(used@).contains(c) && !strs(sup@).contains(c)
            },
        },
{
    match supported {
        None => {
            let commands = copy_strs(used);
            Err(ValidateError::PluginCommandAvailability { plugin: plugin.to_owned(), commands })
        },
        Some(sup) => {
            let missing = unsupported_commands(used, sup);
            if missing.len() == 0 {
                proof {
                    assert forall|c: Seq<char>| #[trigger] strs(used@).contains(c) implies strs(sup@).contains(c) by {
                        if !strs(sup@).contains(c) {
                            assert(strs(missing@).contains(c));
                        }
                    }
                }
                Ok(())
            } else {
                proof {
                    let c = strs(missing@)[0];
                    assert(strs(missing@).contains(c));
                }
                Err(ValidateError::PluginCommandAvailability { plugin: plugin.to_owned(), commands: missing })
            }
        },
    }
}

/// The plugins that the script declares, with the commands it calls on each.
pub fn plugin_use(items: &Vec<Item>) -> (r: PluginUse)
    ensures
        r.describes(kinds(items@)),
{
    let plugins = declared_plugins(items);
    let mut commands: Vec<Vec<String>> = Vec::new();
    let mut i: usize = 0;
    while i < plugins.len()
        invariant
            i <= plugins@.len(),
            commands@.len() == i,
            forall|k: int|
                0 <= k < i ==> strs(#[trigger] commands@[k]@).to_set() == commands_of(
                    kinds(items@),
                    plugins@[k]@,
                ),
        decreases plugins@.len() - i,
    {
        commands.push(commands_used(items, plugins[i].as_str()));
        i = i + 1;
    }
    PluginUse { plugins, commands }
}

impl ScriptValidator {
    /// The checks that need no plugin: jumps and labels first, then declared against
    /// called plugins. On success, the plugins to load and the commands used on each.
    pub fn validate_declarations(&self, items: &Vec<Item>) -> (r: Result<PluginUse, ValidateError>)
        ensures
            !jumps_ok(kinds(items@)) ==> r matches Err(ValidateError::JumpsLabelMismatch),
            jumps_ok(kinds(items@)) && declared_set(kinds(items@)) != used_set(kinds(items@))
                ==> r matches Err(ValidateError::PluginNotSetForLoading),
            jumps_ok(kinds(items@)) && declared_set(kinds(items@)) == used_set(kinds(items@))
                ==> (r matches Ok(u) && u.describes(kinds(items@))),
    {
        if !self.validate_jumps(items) {
            return Err(ValidateError::JumpsLabelMismatch);
        }
        if !self.validate_plugins_availability(items) {
            return Err(ValidateError::PluginNotSetForLoading);
        }
        Ok(plugin_use(items))
    }
}

impl ScriptValidator {
    /// Checks, for each plugin of `uses`, that it is loaded in `manager` and that the
    /// commands it lists under `cmds` include those the script calls on it (see
    /// `check_plugin_commands`). Stops at the first plugin that fails.
    pub fn validate_plugins_commands<P: PluginInterface>(&self, uses: &PluginUse, manager: &PluginManager<P>) -> (r:
        Result<(), ValidateError>)
        ensures
            r matches Err(ValidateError::PluginLoadingFailed { plugin }) ==> strs(uses.plugins@).contains(plugin@)
                && !manager.names().contains(plugin@),
            r matches Err(ValidateError::PluginCommandAvailability { plugin, .. }) ==> strs(uses.plugins@).contains(plugin@),
            r is Ok ==> forall|i: int| 0 <= i < uses.plugins@.len() ==> manager.names().contains(#[trigger] uses.plugins@[i]@),
            uses.plugins@.len() == 0 ==> r is Ok,
            uses.plugins@.len() > 0 && !manager.names().contains(uses.plugins@[0]@) ==> (r matches Err(
                ValidateError::PluginLoadingFailed { plugin },
            ) && plugin@ == uses.plugins@[0]@),
            r is Err ==> (r matches Err(ValidateError::PluginLoadingFailed { .. }) || r matches Err(
                ValidateError::PluginCommandAvailability { .. },
            )),
    {
        let n = uses.plugins.len();
        let mut i: usize = 0;
        while i < n
            invariant
                n == uses.plugins@.len(),
                i <= n,
                forall|k: int| 0 <= k < i ==> manager.names().contains(#[trigger] uses.plugins@[k]@),
            decreases n - i,
        {
            let name = uses.plugins[i].as_str();
            proof {
                assert(strs(uses.plugins@)[i as int] == name@);
            }
            match manager.get_params(name) {
                None => {
                    return Err(ValidateError::PluginLoadingFailed { plugin: name.to_owned() });
                },
                Some(params) => {
                    if i < uses.commands.len() {
                        let checked = check_plugin_commands(
                            name,
                            &uses.commands[i],
                            params_lookup(&params, PARAMS_GET_CMDS_KEY),
                        );
                        if let Err(e) = checked {
                            return Err(e);
                        }
                    }
                },
            }
            i = i + 1;
        }
        Ok(())
    }
}

/// `LOAD_PLUGIN` tokens for `p` among the first `n` tokens.
pub open spec fn count_loads(ts: Seq<Token>, p: Seq<char>, n: int) -> nat
    decreases n,
{
    if n <= 0 {
        0
    } else {
        count_loads(ts, p, n - 1) + if loaded_plugin(ts[n - 1]) == Some(p) {
            1nat
        } else {
            0nat
        }
    }
}

/// No plugin is loaded by two tokens.
pub open spec fn loads_distinct(ts: Seq<Token>) -> bool {
    forall|i: int, j: int|
        0 <= i < j < ts.len() && #[trigger] loaded_plugin(ts[i]) is Some ==> loaded_plugin(ts[i])
            != #[trigger] loaded_plugin(ts[j])
}

proof fn lemma_count_loads(ts: Seq<Token>, p: Seq<char>, n: int)
    requires
        0 <= n <= ts.len(),
        loads_distinct(ts),
    ensures
        count_loads(ts, p, n) <= 1,
        count_loads(ts, p, n) == 1 <==> exists|i: int| 0 <= i < n && loaded_plugin(ts[i]) == Some(p),
    decreases n,
{
    if n > 0 {
        lemma_count_loads(ts, p, n - 1);
        if loaded_plugin(ts[n - 1]) == Some(p) && count_loads(ts, p, n - 1) == 1 {
            let i = choose|i: int| 0 <= i < n - 1 && loaded_plugin(ts[i]) == Some(p);
            assert(loaded_plugin(ts[i]) != loaded_plugin(ts[n - 1]));
        }
        if exists|i: int| 0 <= i < n && loaded_plugin(ts[i]) == Some(p) {
            let i = choose|i: int| 0 <= i < n && loaded_plugin(ts[i]) == Some(p);
            if i < n - 1 {
                assert(count_loads(ts, p, n - 1) == 1);
            }
        }
    }
}

/// In a script whose declared plugins are the called ones and that declares no plugin
/// twice, each called plugin has exactly one `LOAD_PLUGIN` token and no other plugin has
/// any: the declarations, counted with repetition, are the set of called plugins.
pub proof fn lemma_declarations_match_use(ts: Seq<Token>, p: Seq<char>)
    requires
        declared_set(ts) == used_set(ts),
        loads_distinct(ts),
    ensures
        count_loads(ts, p, ts.len() as int) == if used_set(ts).contains(p) {
            1nat
        } else {
            0nat
        },
{
    lemma_count_loads(ts, p, ts.len() as int);
    assert(declared_set(ts).contains(p) <==> exists|i: int|
        0 <= i < ts.len() && loaded_plugin(ts[i]) == Some(p));
}

proof fn lemma_labels_le_jumps(ts: Seq<Token>, l: Seq<char>, n: int)
    requires
        jumps_ok(ts),
        0 <= n <= ts.len(),
    ensures
        count_labels(ts, l, n) <= count_jumps(ts, l, n),
    decreases n,
{
    if n > 0 {
        lemma_labels_le_jumps(ts, l, n - 1);
        if label_name(ts[n - 1]) == Some(l) {
            assert(label_name(ts[n - 1]) is Some);
        }
    }
}

proof fn lemma_count_labels_split(ts: Seq<Token>, l: Seq<char>, i: int, n: int)
    requires
        0 <= i <= n <= ts.len(),
        count_labels(ts, l, n) > count_labels(ts, l, i),
    ensures
        exists|j: int| i <= j < n && label_name(ts[j]) == Some(l),
    decreases n,
{
    if n > i {
        if label_name(ts[n - 1]) != Some(l) {
            lemma_count_labels_split(ts, l, i, n - 1);
        }
    }
}

proof fn lemma_counts_mono(ts: Seq<Token>, l: Seq<char>, i: int, n: int)
    requires
        0 <= i <= n,
    ensures
        count_labels(ts, l, i) <= count_labels(ts, l, n),
        count_jumps(ts, l, i) <= count_jumps(ts, l, n),
    decreases n,
{
    if n > i {
        lemma_counts_mono(ts, l, i, n - 1);
    }
}

/// In a script whose jumps and labels agree, each jump has its label later on: after a
/// jump to `l` there are at least as many labels `l` as there are jumps to `l` from that
/// jump on, so at least one.
pub proof fn lemma_jump_has_later_label(ts: Seq<Token>, i: int)
    requires
        jumps_ok(ts),
        0 <= i < ts.len(),
        jump_label(ts[i]) is Some,
    ensures
        ({
            let l = jump_label(ts[i])->0;
            &&& count_labels(ts, l, ts.len() as int) - count_labels(ts, l, i + 1) >= count_jumps(
                ts,
                l,
                ts.len() as int,
            ) - count_jumps(ts, l, i)
            &&& exists|j: int| i < j < ts.len() && label_name(ts[j]) == Some(l)
        }),
{
    let l = jump_label(ts[i])->0;
    let n = ts.len() as int;
    lemma_labels_le_jumps(ts, l, i);
    assert(count_labels(ts, l, i + 1) == count_labels(ts, l, i));
    assert(count_jumps(ts, l, i + 1) == count_jumps(ts, l, i) + 1);
    lemma_counts_mono(ts, l, i + 1, n);
    assert(count_jumps(ts, l, n) == count_labels(ts, l, n));
    lemma_count_labels_split(ts, l, i + 1, n);
}

proof fn lemma_label_of_rank(ts: Seq<Token>, l: Seq<char>, r: nat, n: int)
    requires
        0 <= n <= ts.len(),
        count_labels(ts, l, n) > r,
    ensures
        exists|j: int| 0 <= j < n && label_name(ts[j]) == Some(l) && count_labels(ts, l, j) == r,
    decreases n,
{
    if count_labels(ts, l, n - 1) > r {
        lemma_label_of_rank(ts, l, r, n - 1);
    } else {
        assert(label_name(ts[n - 1]) == Some(l) && count_labels(ts, l, n - 1) == r);
    }
}

proof fn lemma_jump_of_rank(ts: Seq<Token>, l: Seq<char>, r: nat, n: int)
    requires
        0 <= n <= ts.len(),
        count_jumps(ts, l, n) > r,
    ensures
        exists|i: int| 0 <= i < n && jump_label(ts[i]) == Some(l) && count_jumps(ts, l, i) == r,
    decreases n,
{
    if count_jumps(ts, l, n - 1) > r {
        lemma_jump_of_rank(ts, l, r, n - 1);
    } else {
        assert(jump_label(ts[n - 1]) == Some(l) && count_jumps(ts, l, n - 1) == r);
    }
}

/// Jumps and labels of the same name pair up in order when they agree: the jump that is
/// the k-th to label `l` has as partner the k-th label `l`, which comes strictly later.
/// Ranks differ between jumps of one name and between labels of one name, so this pairing
/// is one to one (see `lemma_label_has_earlier_jump` for the other direction).
pub proof fn lemma_jump_partner_is_later(ts: Seq<Token>, i: int)
    requires
        jumps_ok(ts),
        0 <= i < ts.len(),
        jump_label(ts[i]) is Some,
    ensures
        exists|j: int|
            i < j < ts.len() && label_name(ts[j]) == jump_label(ts[i]) && count_labels(
                ts,
                jump_label(ts[i])->0,
                j,
            ) == count_jumps(ts, jump_label(ts[i])->0, i),
{
    let l = jump_label(ts[i])->0;
    let n = ts.len() as int;
    let r = count_jumps(ts, l, i);
    assert(count_jumps(ts, l, i + 1) == r + 1);
    lemma_counts_mono(ts, l, i + 1, n);
    assert(count_jumps(ts, l, n) == count_labels(ts, l, n));
    lemma_label_of_rank(ts, l, r, n);
    let j = choose|j: int| 0 <= j < n && label_name(ts[j]) == Some(l) && count_labels(ts, l, j) == r;
    assert(label_name(ts[j]) is Some);
    if j <= i {
        lemma_counts_mono(ts, l, j, i);
    }
}

/// The other direction of the pairing: the k-th label `l` has as partner the k-th jump to
/// `l`, which comes strictly earlier.
pub proof fn lemma_label_has_earlier_jump(ts: Seq<Token>, j: int)
    requires
        jumps_ok(ts),
        0 <= j < ts.len(),
        label_name(ts[j]) is Some,
    ensures
        exists|i: int|
            0 <= i < j && jump_label(ts[i]) == label_name(ts[j]) && count_jumps(
                ts,
                label_name(ts[j])->0,
                i,
            ) == count_labels(ts, label_name(ts[j])->0, j),
{
    let l = label_name(ts[j])->0;
    lemma_jump_of_rank(ts, l, count_labels(ts, l, j), j);
}

/// Ranks tell apart jumps of one name, and labels of one name.
pub proof fn lemma_ranks_distinct(ts: Seq<Token>, l: Seq<char>, a: int, b: int)
    requires
        0 <= a < b <= ts.len(),
    ensures
        jump_label(ts[a]) == Some(l) ==> count_jumps(ts, l, a) < count_jumps(ts, l, b),
        label_name(ts[a]) == Some(l) ==> count_labels(ts, l, a) < count_labels(ts, l, b),
{
    lemma_counts_mono(ts, l, a + 1, b);
}

impl Default for ScriptValidator {
    fn default() -> (r: ScriptValidator) {
        ScriptValidator::new()
    }
}

} // verus!
