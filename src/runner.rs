use vstd::prelude::*;
use crate::macros::{replace_macros, subst};
use crate::manager::{call_ok, enable_calls, PluginCall, PluginManager};
use crate::plugin::{eq_ascii_case, eq_ignore_ascii_case, PluginInterface};
use crate::string_map::StringMap;
use crate::text::str_eq;
use crate::token::{Item, Token, TokenType, kinds};
use crate::validator::label_name;

verus! {

/// A call of a plugin command, over character sequences.
pub struct Call {
    pub plugin: Seq<char>,
    pub command: Seq<char>,
    pub args: Seq<char>,
    /// The variable macro that receives the plugin's data afterwards.
    pub capture: Option<Seq<char>>,
}

/// A call of a plugin command.
#[derive(Debug)]
pub struct Invocation {
    pub plugin: String,
    pub command: String,
    pub args: String,
    pub capture: Option<String>,
}

impl Invocation {
    pub open spec fn view(&self) -> Call {
        Call {
            plugin: self.plugin@,
            command: self.command@,
            args: self.args@,
            capture: match self.capture {
                Some(c) => Some(c@),
                None => None,
            },
        }
    }
}

pub open spec fn opt_call(r: Option<Invocation>) -> Option<Call> {
    match r {
        Some(i) => Some(i@),
        None => None,
    }
}

/// Why a run stops.
#[derive(Debug)]
pub enum RunError {
    /// A command failed on a plugin that is not fault tolerant.
    ErrorExecutingCommand { plugin: String, command: String },
    /// A command names a plugin that is not loaded.
    PluginNotFound { plugin: String },
}

/// The captured value of a variable-macro token (empty for other tokens).
pub open spec fn value_of(t: Token) -> Seq<char> {
    match t {
        Token::VariableMacro { value, .. } => value,
        _ => Seq::empty(),
    }
}

/// `t` with the captured value `v`, if it is a variable-macro token.
pub open spec fn with_value(t: Token, v: Seq<char>) -> Token {
    match t {
        Token::VariableMacro { plugin, command, args, vmacro, .. } => Token::VariableMacro {
            plugin,
            command,
            args,
            vmacro,
            value: v,
        },
        _ => t,
    }
}

/// `b` is `a` with, at most, other captured values in its variable-macro tokens.
pub open spec fn same_but_values(a: Seq<Item>, b: Seq<Item>) -> bool {
    &&& a.len() == b.len()
    &&& forall|i: int|
        0 <= i < a.len() ==> (#[trigger] b[i]).line@ == a[i].line@ && b[i].token_type@ == with_value(
            a[i].token_type@,
            value_of(b[i].token_type@),
        )
}

/// A jump condition that holds: empty, or `true` in any ASCII case.
pub open spec fn condition_holds(c: Seq<char>) -> bool {
    c.len() == 0 || eq_ignore_ascii_case(c, "true"@)
}

/// The call that a token makes in the dry pass: raw arguments.
pub open spec fn dry_call(t: Token) -> Option<Call> {
    match t {
        Token::VariableMacro { plugin, command, args, vmacro, .. } => Some(
            Call { plugin, command, args, capture: Some(vmacro) },
        ),
        Token::Command { plugin, command, args } => Some(
            Call { plugin, command, args, capture: None },
        ),
        _ => None,
    }
}

/// The calls of the dry pass, in order.
pub open spec fn dry_calls(ts: Seq<Token>) -> Seq<Call>
    decreases ts.len(),
{
    if ts.len() == 0 {
        Seq::empty()
    } else {
        match dry_call(ts[0]) {
            Some(c) => seq![c] + dry_calls(ts.drop_first()),
            None => dry_calls(ts.drop_first()),
        }
    }
}

/// One step of the real pass from position `pc`, skipping to label `skip` if one is set,
/// with the run-time macros `m`: the position, skip label and macros when the next call
/// is reached, and that call; no call at the end of the tokens.
pub open spec fn advance(
    ts: Seq<Token>,
    pc: int,
    skip: Option<Seq<char>>,
    m: Map<Seq<char>, Seq<char>>,
) -> (int, Option<Seq<char>>, Map<Seq<char>, Seq<char>>, Option<Call>)
    decreases ts.len() - pc,
{
    if pc < 0 || pc >= ts.len() {
        (ts.len() as int, skip, m, None)
    } else if skip is Some {
        if label_name(ts[pc]) == skip {
            advance(ts, pc + 1, None, m)
        } else {
            advance(ts, pc + 1, skip, m)
        }
    } else {
        match ts[pc] {
            Token::ConstantMacro { cmacro, value } => advance(ts, pc + 1, None, m.insert(cmacro, value)),
            Token::VariableMacro { plugin, command, args, vmacro, .. } => (
                pc + 1,
                None,
                m,
                Some(Call { plugin, command, args: subst(args, m), capture: Some(vmacro) }),
            ),
            Token::Command { plugin, command, args } => (
                pc + 1,
                None,
                m,
                Some(Call { plugin, command, args: subst(args, m), capture: None }),
            ),
            Token::IfGoTo { condition, label } => if condition_holds(subst(condition, m)) {
                advance(ts, pc + 1, Some(label), m)
            } else {
                advance(ts, pc + 1, None, m)
            },
            _ => advance(ts, pc + 1, None, m),
        }
    }
}

pub proof fn lemma_advance_progress(
    ts: Seq<Token>,
    pc: int,
    skip: Option<Seq<char>>,
    m: Map<Seq<char>, Seq<char>>,
)
    requires
        0 <= pc,
    ensures
        advance(ts, pc, skip, m).0 <= ts.len(),
        advance(ts, pc, skip, m).3 is Some ==> pc < advance(ts, pc, skip, m).0,
        advance(ts, pc, skip, m).3 is None ==> advance(ts, pc, skip, m).0 == ts.len(),
    decreases ts.len() - pc,
{
    if 0 <= pc < ts.len() {
        if skip is Some {
            if label_name(ts[pc]) == skip {
                lemma_advance_progress(ts, pc + 1, None, m);
            } else {
                lemma_advance_progress(ts, pc + 1, skip, m);
            }
        } else {
            match ts[pc] {
                Token::ConstantMacro { cmacro, value } => lemma_advance_progress(ts, pc + 1, None, m.insert(cmacro, value)),
                Token::IfGoTo { condition, label } => {
                    lemma_advance_progress(ts, pc + 1, Some(label), m);
                    lemma_advance_progress(ts, pc + 1, None, m);
                },
                Token::VariableMacro { .. } => {},
                Token::Command { .. } => {},
                _ => lemma_advance_progress(ts, pc + 1, None, m),
            }
        }
    }
}

/// State of the real pass: position, label skipped to, run-time macros.
pub type RealState = (int, Option<Seq<char>>, Map<Seq<char>, Seq<char>>);

/// `e` is a dispatch of call `c`.
pub open spec fn dispatches(e: PluginCall, c: Call) -> bool {
    match e {
        PluginCall::Dispatch { plugin, command, args, .. } => plugin == c.plugin && command
            == c.command && args == c.args,
        _ => false,
    }
}

/// Every call of `evs` succeeded.
pub open spec fn all_ok(evs: Seq<PluginCall>) -> bool {
    forall|i: int| 0 <= i < evs.len() ==> call_ok(#[trigger] evs[i])
}

/// The next call of the real pass from `st`, if any.
pub open spec fn next_call(ts: Seq<Token>, st: RealState) -> Option<Call> {
    advance(ts, st.0, st.1, st.2).3
}

/// The state after the real pass reaches its next call from `st` and that call hands back
/// `data`.
pub open spec fn after(ts: Seq<Token>, st: RealState, data: Seq<char>) -> RealState {
    let a = advance(ts, st.0, st.1, st.2);
    (
        a.0,
        a.1,
        match a.3 {
            Some(c) => match c.capture {
                Some(n) => a.2.insert(n, data),
                None => a.2,
            },
            None => a.2,
        },
    )
}

/// The state after calls that handed back `ds`, in order.
pub open spec fn end_state(ts: Seq<Token>, st: RealState, ds: Seq<Seq<char>>) -> RealState
    decreases ds.len(),
{
    if ds.len() == 0 {
        st
    } else {
        end_state(ts, after(ts, st, ds[0]), ds.drop_first())
    }
}

/// `evs` are the dispatches of the dry pass, calls `cs`, in order: all but the last
/// succeeded.
pub open spec fn dry_follows(cs: Seq<Call>, evs: Seq<PluginCall>) -> bool {
    &&& evs.len() <= cs.len()
    &&& forall|i: int| 0 <= i < evs.len() ==> dispatches(#[trigger] evs[i], cs[i]) && (i + 1 < evs.len()
        ==> call_ok(evs[i]))
}

/// `evs` are the dispatches of the real pass from `st`: each the call that `advance`
/// gives, the successful ones handing back `ds`; only the last may have failed.
pub open spec fn real_follows(ts: Seq<Token>, st: RealState, evs: Seq<PluginCall>, ds: Seq<Seq<char>>) -> bool
    decreases evs.len(),
{
    if evs.len() == 0 {
        ds.len() == 0
    } else {
        &&& next_call(ts, st) is Some
        &&& dispatches(evs[0], next_call(ts, st)->0)
        &&& if call_ok(evs[0]) {
            ds.len() > 0 && real_follows(ts, after(ts, st, ds[0]), evs.drop_first(), ds.drop_first())
        } else {
            evs.len() == 1 && ds.len() == 0
        }
    }
}

/// What a run did: the dispatches of the dry pass, whether it went on to enable the
/// plugins, the `Enable` calls, the dispatches of the real pass and the data that its
/// successful calls handed back.
pub struct RunTrace {
    pub dry: Seq<PluginCall>,
    pub enabled: bool,
    pub enable: Seq<PluginCall>,
    pub real: Seq<PluginCall>,
    pub data: Seq<Seq<char>>,
}

impl RunTrace {
    pub open spec fn empty() -> RunTrace {
        RunTrace { dry: Seq::empty(), enabled: false, enable: Seq::empty(), real: Seq::empty(), data: Seq::empty() }
    }
}

pub proof fn lemma_end_state_push(ts: Seq<Token>, st: RealState, ds: Seq<Seq<char>>, d: Seq<char>)
    ensures
        end_state(ts, st, ds.push(d)) == after(ts, end_state(ts, st, ds), d),
    decreases ds.len(),
{
    if ds.len() > 0 {
        assert(ds.push(d).drop_first() =~= ds.drop_first().push(d));
        assert(ds.push(d)[0] == ds[0]);
        lemma_end_state_push(ts, after(ts, st, ds[0]), ds.drop_first(), d);
        assert(end_state(ts, st, ds.push(d)) == end_state(ts, after(ts, st, ds[0]), ds.drop_first().push(d)));
        assert(end_state(ts, st, ds) == end_state(ts, after(ts, st, ds[0]), ds.drop_first()));
    } else {
        assert(end_state(ts, st, ds) == st);
        assert(end_state(ts, after(ts, st, d), Seq::<Seq<char>>::empty()) == after(ts, st, d));
        assert(ds.push(d).drop_first() =~= Seq::<Seq<char>>::empty());
        assert(ds.push(d)[0] == d);
    }
}

pub proof fn lemma_real_follows_push(
    ts: Seq<Token>,
    st: RealState,
    evs: Seq<PluginCall>,
    ds: Seq<Seq<char>>,
    e: PluginCall,
    d: Seq<char>,
)
    requires
        real_follows(ts, st, evs, ds),
        all_ok(evs),
        next_call(ts, end_state(ts, st, ds)) is Some,
        dispatches(e, next_call(ts, end_state(ts, st, ds))->0),
    ensures
        call_ok(e) ==> real_follows(ts, st, evs.push(e), ds.push(d)),
        !call_ok(e) ==> real_follows(ts, st, evs.push(e), ds),
        ds.len() == evs.len(),
    decreases evs.len(),
{
    if evs.len() > 0 {
        assert(call_ok(evs[0]));
        assert(evs.push(e).drop_first() =~= evs.drop_first().push(e));
        assert(ds.push(d).drop_first() =~= ds.drop_first().push(d));
        assert forall|i: int| 0 <= i < evs.drop_first().len() implies call_ok(#[trigger] evs.drop_first()[i]) by {
            assert(evs.drop_first()[i] == evs[i + 1]);
        }
        assert(evs.push(e)[0] == evs[0]);
        assert(ds.push(d)[0] == ds[0]);
        lemma_real_follows_push(ts, after(ts, st, ds[0]), evs.drop_first(), ds.drop_first(), e, d);
    } else {
        assert(evs.push(e).drop_first() =~= Seq::<PluginCall>::empty());
        assert(ds.push(d).drop_first() =~= Seq::<Seq<char>>::empty());
        assert(evs.push(e)[0] == e);
        assert(ds.push(d)[0] == d);
        assert(end_state(ts, st, ds) == st);
        assert(real_follows(ts, after(ts, st, d), Seq::<PluginCall>::empty(), Seq::<Seq<char>>::empty()));
    }
}

pub proof fn lemma_no_calls(ts: Seq<Token>, pc: int, skip: Option<Seq<char>>, m: Map<Seq<char>, Seq<char>>)
    requires
        forall|k: int| 0 <= k < ts.len() ==> #[trigger] dry_call(ts[k]) is None,
    ensures
        advance(ts, pc, skip, m).3 is None,
    decreases ts.len() - pc,
{
    if 0 <= pc < ts.len() {
        assert(dry_call(ts[pc]) is None);
        if skip is Some {
            lemma_no_calls(ts, pc + 1, None, m);
            lemma_no_calls(ts, pc + 1, skip, m);
        } else {
            match ts[pc] {
                Token::ConstantMacro { cmacro, value } => lemma_no_calls(ts, pc + 1, None, m.insert(cmacro, value)),
                Token::IfGoTo { label, .. } => {
                    lemma_no_calls(ts, pc + 1, Some(label), m);
                    lemma_no_calls(ts, pc + 1, None, m);
                },
                _ => lemma_no_calls(ts, pc + 1, None, m),
            }
        }
    }
}

pub proof fn lemma_dry_calls_empty(ts: Seq<Token>)
    requires
        dry_calls(ts).len() == 0,
    ensures
        forall|k: int| 0 <= k < ts.len() ==> #[trigger] dry_call(ts[k]) is None,
    decreases ts.len(),
{
    if ts.len() > 0 {
        lemma_dry_calls_empty(ts.drop_first());
        assert forall|k: int| 0 <= k < ts.len() implies #[trigger] dry_call(ts[k]) is None by {
            if k > 0 {
                assert(ts[k] == ts.drop_first()[k - 1]);
            }
        }
    }
}

/// Runs scripts: a dry pass with raw arguments, then a real pass with macros and jumps.
pub struct ScriptRunner {
    macros: StringMap,
    skip_label: Option<String>,
    pc: usize,
    trace: Ghost<RunTrace>,
}

impl ScriptRunner {
    /// The run-time macro table.
    pub closed spec fn macros_view(&self) -> Map<Seq<char>, Seq<char>> {
        self.macros@
    }

    /// The label being skipped to, if any.
    pub closed spec fn skip_view(&self) -> Option<Seq<char>> {
        match self.skip_label {
            Some(l) => Some(l@),
            None => None,
        }
    }

    /// What the last run did.
    pub closed spec fn last_trace(&self) -> RunTrace {
        self.trace@
    }

    /// Position of the next token of the real pass.
    pub closed spec fn pc_view(&self) -> int {
        self.pc as int
    }

    pub fn new() -> (r: ScriptRunner)
        ensures
            r.macros_view() == Map::<Seq<char>, Seq<char>>::empty(),
            r.skip_view() is None,
            r.pc_view() == 0,
    {
        ScriptRunner { macros: StringMap::new(), skip_label: None, pc: 0, trace: Ghost(RunTrace::empty()) }
    }

    /// The run-time macro table.
    pub fn macros(&self) -> (r: &StringMap)
        ensures
            r@ == self.macros_view(),
    {
        &self.macros
    }

    /// Goes back to the first token of the real pass; the macros are kept.
    pub fn rewind(&mut self)
        ensures
            final(self).pc_view() == 0,
            final(self).skip_view() is None,
            final(self).macros_view() == old(self).macros_view(),
            final(self).last_trace() == old(self).last_trace(),
    {
        self.pc = 0;
        self.skip_label = None;
    }

    /// The calls of the dry pass: every command and variable macro, arguments as written.
    pub fn dry_invocations(items: &Vec<Item>) -> (r: Vec<Invocation>)
        ensures
            r@.map_values(|i: Invocation| i@) == dry_calls(kinds(items@)),
    {
        let ghost ts = kinds(items@);
        let n = items.len();
        let mut r: Vec<Invocation> = Vec::new();
        let mut i: usize = 0;
        proof {
            assert(ts.subrange(0, n as int) =~= ts);
            assert(r@.map_values(|i: Invocation| i@) + dry_calls(ts) =~= dry_calls(ts));
        }
        while i < n
            invariant
                n == items@.len(),
                ts == kinds(items@),
                i <= n,
                dry_calls(ts) == r@.map_values(|i: Invocation| i@) + dry_calls(ts.subrange(i as int, n as int)),
            decreases n - i,
        {
            let ghost rest = ts.subrange(i as int, n as int);
            proof {
                assert(rest[0] == items@[i as int].token_type@);
                assert(rest.drop_first() =~= ts.subrange(i + 1, n as int));
            }
            let ghost before = r@;
            match &items[i].token_type {
                TokenType::VariableMacro { plugin, command, args, vmacro, .. } => {
                    r.push(
                        Invocation {
                            plugin: plugin.clone(),
                            command: command.clone(),
                            args: args.clone(),
                            capture: Some(vmacro.clone()),
                        },
                    );
                },
                TokenType::Command { plugin, command, args } => {
                    r.push(
                        Invocation {
                            plugin: plugin.clone(),
                            command: command.clone(),
                            args: args.clone(),
                            capture: None,
                        },
                    );
                },
                _ => {},
            }
            proof {
                if r@.len() > before.len() {
                    assert(r@.map_values(|i: Invocation| i@) =~= before.map_values(|i: Invocation| i@).push(r@.last()@));
                } else {
                    assert(r@ == before);
                }
            }
            i = i + 1;
        }
        proof {
            assert(ts.subrange(n as int, n as int) =~= Seq::<Token>::empty());
            assert(r@.map_values(|i: Invocation| i@) + Seq::<Call>::empty() =~= r@.map_values(|i: Invocation| i@));
        }
        r
    }

    /// Goes on with the real pass up to the next call, which it returns with its macros
    /// substituted; `None` at the end of the tokens (see `advance`).
    pub fn next_invocation(&mut self, items: &Vec<Item>) -> (r: Option<Invocation>)
        ensures
            advance(kinds(items@), old(self).pc_view(), old(self).skip_view(), old(self).macros_view())
                == (final(self).pc_view(), final(self).skip_view(), final(self).macros_view(), opt_call(r)),
            final(self).last_trace() == old(self).last_trace(),
    {
        let ghost ts = kinds(items@);
        let n = items.len();
        let ghost start = (self.pc as int, self.skip_view(), self.macros@);
        if self.pc > n {
            self.pc = n;
        }
        proof {
            if start.0 >= n {
                assert(advance(ts, start.0, start.1, start.2) == advance(ts, n as int, start.1, start.2));
            }
        }
        while self.pc < n
            invariant
                n == items@.len(),
                ts == kinds(items@),
                start == (old(self).pc_view(), old(self).skip_view(), old(self).macros_view()),
                self.trace@ == old(self).trace@,
                self.pc <= n,
                advance(ts, start.0, start.1, start.2) == advance(
                    ts,
                    self.pc as int,
                    self.skip_view(),
                    self.macros@,
                ),
            decreases n - self.pc,
        {
            let pc = self.pc;
            proof {
                assert(ts[pc as int] == items@[pc as int].token_type@);
            }
            self.pc = pc + 1;
            let skipping = self.skip_label.is_some();
            if skipping {
                let hit = match (&items[pc].token_type, &self.skip_label) {
                    (TokenType::Label { label }, Some(s)) => str_eq(label.as_str(), s.as_str()),
                    _ => false,
                };
                if hit {
                    self.skip_label = None;
                }
            } else {
                match &items[pc].token_type {
                    TokenType::ConstantMacro { cmacro, value } => {
                        self.macros.insert(cmacro.clone(), value.clone());
                    },
                    TokenType::VariableMacro { plugin, command, args, vmacro, .. } => {
                        let mut a = args.clone();
                        replace_macros(&mut a, &self.macros);
                        return Some(
                            Invocation {
                                plugin: plugin.clone(),
                                command: command.clone(),
                                args: a,
                                capture: Some(vmacro.clone()),
                            },
                        );
                    },
                    TokenType::Command { plugin, command, args } => {
                        let mut a = args.clone();
                        replace_macros(&mut a, &self.macros);
                        return Some(
                            Invocation {
                                plugin: plugin.clone(),
                                command: command.clone(),
                                args: a,
                                capture: None,
                            },
                        );
                    },
                    TokenType::IfGoTo { condition, label } => {
                        let mut c = condition.clone();
                        replace_macros(&mut c, &self.macros);
                        if c.as_str().is_empty() || eq_ascii_case(c.as_str(), "true") {
                            self.skip_label = Some(label.clone());
                        }
                    },
                    _ => {},
                }
            }
        }
        None
    }

    /// Records the outcome of a call: a variable macro receives `data`.
    pub fn complete(&mut self, inv: &Invocation, data: String)
        ensures
            final(self).macros_view() == match inv@.capture {
                Some(name) => old(self).macros_view().insert(name, data@),
                None => old(self).macros_view(),
            },
            final(self).pc_view() == old(self).pc_view(),
            final(self).skip_view() == old(self).skip_view(),
            final(self).last_trace() == old(self).last_trace(),
    {
        if let Some(name) = &inv.capture {
            self.macros.insert(name.clone(), data);
        }
    }

    /// Runs the script on the plugins of `manager`: the calls of the dry pass (raw
    /// arguments), then enabling the plugins, then the calls of the real pass from the
    /// first token (see `advance`), each call's data going to its variable macro. Stops at
    /// the first call that names a plugin not loaded or that fails. What it did is in
    /// `last_trace`; a variable macro's token keeps the data it captured.
    pub fn run_script<P: PluginInterface>(&mut self, items: &mut Vec<Item>, manager: &mut PluginManager<P>) -> (r:
        Result<(), RunError>)
        ensures
            ({
                let ts = kinds(old(items)@);
                let d = dry_calls(ts);
                let st0: RealState = (0int, None, old(self).macros_view());
                let t = final(self).last_trace();
                let fin = end_state(ts, st0, t.data);
                &&& same_but_values(old(items)@, final(items)@)
                &&& final(manager).names() == old(manager).names()
                &&& final(manager).calls() == old(manager).calls() + t.dry + t.enable + t.real
                &&& dry_follows(d, t.dry)
                &&& t.enabled == (t.dry.len() == d.len() && all_ok(t.dry))
                &&& t.enabled ==> enable_calls(old(manager).names(), t.enable)
                &&& !t.enabled ==> t.enable.len() == 0 && t.real.len() == 0 && t.data.len() == 0
                &&& real_follows(ts, st0, t.real, t.data)
                &&& (r is Ok <==> t.enabled && all_ok(t.real) && next_call(ts, fin) is None)
                &&& r is Ok ==> final(self).macros_view() == advance(ts, fin.0, fin.1, fin.2).2
                    && final(self).pc_view() == ts.len()
                &&& r matches Err(RunError::ErrorExecutingCommand { plugin, command }) ==> {
                    let evs = if t.enabled { t.real } else { t.dry };
                    &&& evs.len() > 0 && !call_ok(evs.last())
                    &&& evs.last() == PluginCall::Dispatch { plugin: plugin@, command: command@, args: evs.last()->args, ok: false }
                }
                &&& r matches Err(RunError::PluginNotFound { plugin }) ==> {
                    &&& !old(manager).names().contains(plugin@)
                    &&& if t.enabled {
                        all_ok(t.real) && next_call(ts, fin) is Some && next_call(ts, fin)->0.plugin == plugin@
                    } else {
                        t.dry.len() < d.len() && all_ok(t.dry) && d[t.dry.len() as int].plugin == plugin@
                    }
                }
                &&& d.len() == 0 ==> r is Ok
                &&& d.len() > 0 && !old(manager).names().contains(d[0].plugin) ==> (r matches Err(
                    RunError::PluginNotFound { plugin },
                ) && plugin@ == d[0].plugin)
            }),
    {
        let ghost ts = kinds(items@);
        let ghost c0 = manager.calls();
        let ghost names0 = manager.names();
        let ghost st0: RealState = (0int, None, self.macros@);
        let dry = Self::dry_invocations(items);
        let ghost d = dry_calls(ts);
        self.trace = Ghost(RunTrace::empty());
        let mut i: usize = 0;
        while i < dry.len()
            invariant
                i <= dry@.len(),
                ts == kinds(old(items)@),
                items@ == old(items)@,
                d == dry_calls(ts),
                dry@.map_values(|i: Invocation| i@) == d,
                manager.names() == names0,
                names0 == old(manager).names(),
                c0 == old(manager).calls(),
                st0 == (0int, None::<Seq<char>>, old(self).macros_view()),
                self.macros@ == old(self).macros_view(),
                self.trace@ == (RunTrace { dry: self.trace@.dry, ..RunTrace::empty() }),
                self.trace@.dry.len() == i,
                all_ok(self.trace@.dry),
                dry_follows(d, self.trace@.dry),
                manager.calls() == c0 + self.trace@.dry,
                i > 0 ==> names0.contains(d[0].plugin),
            decreases dry@.len() - i,
        {
            let inv = &dry[i];
            proof {
                assert(dry@.map_values(|i: Invocation| i@)[i as int] == dry@[i as int]@);
            }
            let ghost before = self.trace@.dry;
            match manager.dispatch(inv.plugin.as_str(), inv.command.as_str(), inv.args.as_str()) {
                None => {
                    return Err(RunError::PluginNotFound { plugin: inv.plugin.clone() });
                },
                Some(ok) => {
                    assert(names0.contains(d[i as int].plugin));
                    let ghost e = PluginCall::Dispatch { plugin: inv.plugin@, command: inv.command@, args: inv.args@, ok };
                    self.trace = Ghost(RunTrace { dry: before.push(e), ..self.trace@ });
                    proof {
                        assert(manager.calls() =~= c0 + self.trace@.dry);
                        assert forall|k: int| 0 <= k < self.trace@.dry.len() implies dispatches(#[trigger] self.trace@.dry[k], d[k])
                            && (k + 1 < self.trace@.dry.len() ==> call_ok(self.trace@.dry[k])) by {
                            if k < i {
                                assert(self.trace@.dry[k] == before[k]);
                            }
                        }
                    }
                    if !ok {
                        return Err(
                            RunError::ErrorExecutingCommand {
                                plugin: inv.plugin.clone(),
                                command: inv.command.clone(),
                            },
                        );
                    }
                    proof {
                        assert forall|k: int| 0 <= k < self.trace@.dry.len() implies call_ok(#[trigger] self.trace@.dry[k]) by {
                            if k < i {
                                assert(self.trace@.dry[k] == before[k]);
                            }
                        }
                    }
                },
            }
            i = i + 1;
        }
        let ghost ce = manager.calls();
        manager.enable_plugins();
        let ghost enable = manager.calls().subrange(ce.len() as int, manager.calls().len() as int);
        self.trace = Ghost(RunTrace { enabled: true, enable, ..self.trace@ });
        proof {
            assert(manager.calls() =~= c0 + self.trace@.dry + self.trace@.enable);
            if d.len() == 0 {
                lemma_dry_calls_empty(ts);
            }
        }
        self.rewind();
        let mut captured: Vec<(usize, String)> = Vec::new();
        loop
            invariant_except_break
                (self.pc_view(), self.skip_view(), self.macros_view()) == end_state(ts, st0, self.trace@.data),
            invariant
                ts == kinds(old(items)@),
                items@ == old(items)@,
                d == dry_calls(ts),
                manager.names() == names0,
                names0 == old(manager).names(),
                c0 == old(manager).calls(),
                st0 == (0int, None::<Seq<char>>, old(self).macros_view()),
                self.trace@.enabled,
                self.trace@.dry.len() == d.len(),
                all_ok(self.trace@.dry),
                dry_follows(d, self.trace@.dry),
                enable_calls(names0, self.trace@.enable),
                manager.calls() == c0 + self.trace@.dry + self.trace@.enable + self.trace@.real,
                real_follows(ts, st0, self.trace@.real, self.trace@.data),
                all_ok(self.trace@.real),
                self.pc_view() <= items@.len(),
                d.len() == 0 ==> forall|k: int| 0 <= k < ts.len() ==> #[trigger] dry_call(ts[k]) is None,
                d.len() > 0 ==> names0.contains(d[0].plugin),
            ensures
                self.pc_view() == items@.len(),
                next_call(ts, end_state(ts, st0, self.trace@.data)) is None,
                ({
                    let fin = end_state(ts, st0, self.trace@.data);
                    self.macros_view() == advance(ts, fin.0, fin.1, fin.2).2
                }),
            decreases items@.len() - self.pc_view(),
        {
            let ghost st: RealState = (self.pc_view(), self.skip_view(), self.macros_view());
            proof {
                lemma_advance_progress(ts, st.0, st.1, st.2);
                if d.len() == 0 {
                    lemma_no_calls(ts, st.0, st.1, st.2);
                }
            }
            match self.next_invocation(items) {
                None => {
                    break;
                },
                Some(inv) => {
                    let ghost evs = self.trace@.real;
                    let ghost ds = self.trace@.data;
                    match manager.dispatch(inv.plugin.as_str(), inv.command.as_str(), inv.args.as_str()) {
                        None => {
                            return Err(RunError::PluginNotFound { plugin: inv.plugin });
                        },
                        Some(ok) => {
                            let ghost e = PluginCall::Dispatch { plugin: inv.plugin@, command: inv.command@, args: inv.args@, ok };
                            proof {
                                lemma_real_follows_push(ts, st0, evs, ds, e, Seq::empty());
                            }
                            if !ok {
                                self.trace = Ghost(RunTrace { real: evs.push(e), ..self.trace@ });
                                proof {
                                    assert(manager.calls() =~= c0 + self.trace@.dry + self.trace@.enable + self.trace@.real);
                                }
                                return Err(
                                    RunError::ErrorExecutingCommand {
                                        plugin: inv.plugin,
                                        command: inv.command,
                                    },
                                );
                            }
                            let data = match manager.get_data(inv.plugin.as_str()) {
                                Some(x) => x,
                                None => String::new(),
                            };
                            proof {
                                lemma_real_follows_push(ts, st0, evs, ds, e, data@);
                                lemma_end_state_push(ts, st0, ds, data@);
                            }
                            self.trace = Ghost(RunTrace { real: evs.push(e), data: ds.push(data@), ..self.trace@ });
                            if inv.capture.is_some() && self.pc > 0 {
                                captured.push((self.pc - 1, data.clone()));
                            }
                            self.complete(&inv, data);
                            proof {
                                assert(manager.calls() =~= c0 + self.trace@.dry + self.trace@.enable + self.trace@.real);
                                assert forall|k: int| 0 <= k < self.trace@.real.len() implies call_ok(#[trigger] self.trace@.real[k]) by {
                                    if k < evs.len() {
                                        assert(self.trace@.real[k] == evs[k]);
                                    }
                                }
                            }
                        },
                    }
                },
            }
        }
        let mut j: usize = 0;
        while j < captured.len()
            invariant
                same_but_values(old(items)@, items@),
            decreases captured@.len() - j,
        {
            Self::keep_value(items, captured[j].0, captured[j].1.clone());
            j = j + 1;
        }
        Ok(())
    }
}

impl ScriptRunner {
    /// Stores `data` as the captured value of the variable-macro token at `k`.
    fn keep_value(items: &mut Vec<Item>, k: usize, data: String)
        ensures
            same_but_values(old(items)@, final(items)@),
            forall|a: Seq<Item>| same_but_values(a, old(items)@) ==> same_but_values(a, final(items)@),
    {
        if k >= items.len() {
            return;
        }
        let updated = match &items[k].token_type {
            TokenType::VariableMacro { plugin, command, args, vmacro, .. } => Some(
                Item {
                    line: items[k].line.clone(),
                    token_type: TokenType::VariableMacro {
                        plugin: plugin.clone(),
                        command: command.clone(),
                        args: args.clone(),
                        vmacro: vmacro.clone(),
                        value: data,
                    },
                },
            ),
            _ => None,
        };
        if let Some(item) = updated {
            let ghost before = items@;
            items.set(k, item);
            proof {
                assert forall|i: int| 0 <= i < before.len() implies (#[trigger] items@[i]).line@
                    == before[i].line@ && items@[i].token_type@ == with_value(
                    before[i].token_type@,
                    value_of(items@[i].token_type@),
                ) by {
                    if i != k {
                        assert(items@[i] == before[i]);
                    }
                }
                assert forall|a: Seq<Item>| same_but_values(a, before) implies same_but_values(a, items@) by {
                    assert forall|i: int| 0 <= i < a.len() implies (#[trigger] items@[i]).line@ == a[i].line@
                        && items@[i].token_type@ == with_value(a[i].token_type@, value_of(items@[i].token_type@)) by {
                        assert(before[i].line@ == a[i].line@);
                        if i != k {
                            assert(items@[i] == before[i]);
                        }
                    }
                }
            }
        } else {
            proof {
                assert forall|i: int| 0 <= i < items@.len() implies (#[trigger] items@[i]).token_type@ == with_value(
                    items@[i].token_type@,
                    value_of(items@[i].token_type@),
                ) by {
                    if items@[i].token_type@ is VariableMacro {
                    }
                }
            }
        }
    }
}

impl Default for ScriptRunner {
    fn default() -> (r: ScriptRunner)
        ensures
            r.macros_view() == Map::<Seq<char>, Seq<char>>::empty(),
            r.skip_view() is None,
            r.pc_view() == 0,
    {
        ScriptRunner::new()
    }
}

} // verus!
