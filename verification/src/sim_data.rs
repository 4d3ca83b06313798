//! Which value of the simulation belongs to which vertex of an exported
//! graph: the walk of a trace that finds, for every vertex with a signal,
//! the values that the signal had when the vertex was active.

use vstd::prelude::*;
use vstd::string::*;
use crate::codes::{code_positions, lemma_code_positions, CodeIndex};
use crate::errors::Error;
use crate::pdg_spec::{ExportablePDG, ExportablePDGNode};
use crate::interning::{find_indexed, index_texts};
use crate::times::{index_times, lemma_time_positions, stamps_of, time_positions};
use crate::text::{clone_strings, dotted, first_equal, join_dotted, representative, split, split_on};
use crate::trace::{first_scope_path, var_at, Header, LogicValue, ScopeItem, TraceCommand};

verus! {


/// The character of a logic level.
pub open spec fn level_char(v: LogicValue) -> char {
    match v {
        LogicValue::V0 => '0',
        LogicValue::V1 => '1',
        LogicValue::X => 'x',
        LogicValue::Z => 'z',
    }
}

/// The text of a vector of logic levels, first bit first.
pub open spec fn bits_text(bits: Seq<LogicValue>) -> Seq<char> {
    Seq::new(bits.len(), |i: int| level_char(bits[i]))
}

/// The text of a vector of logic levels.
pub fn vector_text(bits: &Vec<LogicValue>) -> (r: String)
    ensures
        r@ == bits_text(bits@),
{
    let mut r = String::new();
    let mut i: usize = 0;
    proof {
        reveal_strlit("0");
        reveal_strlit("1");
        reveal_strlit("x");
        reveal_strlit("z");
    }
    while i < bits.len()
        invariant
            i <= bits.len(),
            r@ == bits_text(bits@.take(i as int)),
            "0"@ == seq!['0'],
            "1"@ == seq!['1'],
            "x"@ == seq!['x'],
            "z"@ == seq!['z'],
        decreases bits.len() - i,
    {
        let ghost before = r@;
        let piece = match bits[i] {
            LogicValue::V0 => "0",
            LogicValue::V1 => "1",
            LogicValue::X => "x",
            LogicValue::Z => "z",
        };
        r = r.concat(piece);
        assert(r@ =~= bits_text(bits@.take(i + 1))) by {
            assert(bits@.take(i + 1) =~= bits@.take(i as int).push(bits@[i as int]));
            assert(piece@ =~= seq![level_char(bits@[i as int])]);
        }
        i = i + 1;
    }
    assert(bits@.take(i as int) =~= bits@);
    r
}

/// A signal of the trace: its identifier and its name below the scope root.
#[derive(Debug)]
pub struct Signal {
    pub code: u64,
    pub name: String,
}

impl DeepView for Signal {
    type V = (u64, Seq<char>);

    open spec fn deep_view(&self) -> (u64, Seq<char>) {
        (self.code, self.name@)
    }
}

/// The signals that one entry declares, names taken below `prefix`. The
/// names of nested scopes follow each other without a mark between them;
/// the name of a variable is set off by a dot.
pub open spec fn item_signals(item: &ScopeItem, prefix: Seq<char>) -> Seq<(u64, Seq<char>)>
    decreases item, 0int,
{
    match item {
        ScopeItem::Scope(s) => items_signals(&s.items, prefix + s.identifier@, s.items.len() as int),
        ScopeItem::Var(v) => seq![(v.code, dotted(prefix, v.reference@))],
        ScopeItem::Other => seq![],
    }
}

/// The signals that the first `upto` entries declare, in order.
pub open spec fn items_signals(items: &Vec<ScopeItem>, prefix: Seq<char>, upto: int) -> Seq<
    (u64, Seq<char>),
>
    decreases items, upto,
{
    if upto <= 0 || upto > items.len() {
        seq![]
    } else {
        items_signals(items, prefix, upto - 1) + item_signals(&items[upto - 1], prefix)
    }
}

fn collect_signals(items: &Vec<ScopeItem>, prefix: &str, out: &mut Vec<Signal>)
    ensures
        final(out).deep_view() == old(out).deep_view() + items_signals(
            items,
            prefix@,
            items.len() as int,
        ),
    decreases items,
{
    let mut i: usize = 0;
    proof {
        assert(out.deep_view() + Seq::<(u64, Seq<char>)>::empty() == out.deep_view());
    }
    while i < items.len()
        invariant
            i <= items.len(),
            out.deep_view() == old(out).deep_view() + items_signals(items, prefix@, i as int),
        decreases items.len() - i,
    {
        let ghost before = out.deep_view();
        let ghost done = items_signals(items, prefix@, i as int);
        match &items[i] {
            ScopeItem::Scope(s) => {
                let inner = prefix.to_owned().concat(s.identifier.as_str());
                collect_signals(&s.items, inner.as_str(), out);
            },
            ScopeItem::Var(v) => {
                let name = join_dotted(prefix, v.reference.as_str());
                out.push(Signal { code: v.code, name });
                assert(out.deep_view() == before + seq![(v.code, dotted(prefix@, v.reference@))]);
            },
            ScopeItem::Other => {},
        }
        proof {
            let added = item_signals(&items[i as int], prefix@);
            assert(out.deep_view() == before + added);
            assert(old(out).deep_view() + done + added == old(out).deep_view() + (done + added));
        }
        i = i + 1;
    }
}

/// The signals below the scope at `root`; none if that scope is missing.
pub open spec fn signals_below(items: Seq<ScopeItem>, root: Seq<Seq<char>>) -> Seq<
    (u64, Seq<char>),
> {
    if root.len() == 0 {
        seq![]
    } else {
        match first_scope_path(items, root) {
            Some(scope) => items_signals(&scope.items, Seq::empty(), scope.items.len() as int),
            None => seq![],
        }
    }
}

/// Every variable below the scope at `root`, with its identifier and name.
pub fn build_signal_map(header: &Header, root: &Vec<String>) -> (signals: Vec<Signal>)
    ensures
        signals.deep_view() == signals_below(header.items@, root.deep_view()),
{
    let mut signals: Vec<Signal> = Vec::new();
    assert(signals.deep_view() == Seq::<(u64, Seq<char>)>::empty());
    if root.len() == 0 {
        return signals;
    }
    match header.find_scope_entry(root) {
        Some(scope) => {
            proof {
                reveal_strlit("");
                assert(""@ == Seq::<char>::empty());
                assert(Seq::<(u64, Seq<char>)>::empty() + items_signals(
                    &scope.items,
                    Seq::empty(),
                    scope.items.len() as int,
                ) == items_signals(&scope.items, Seq::empty(), scope.items.len() as int));
            }
            collect_signals(&scope.items, "", &mut signals);
        },
        None => {},
    }
    signals
}

/// What the walk of a trace is made for, as far as it stays fixed.
pub struct WalkEnv {
    /// The identifier of the clock.
    pub clock: u64,
    /// The identifier of every signal.
    pub codes: Seq<u64>,
    /// The slot of every signal: the first signal of the same name.
    pub slots: Seq<usize>,
    /// For every vertex the slot of its signal, if it has a signal and the trace knows it.
    pub node_slots: Seq<Option<usize>>,
    /// The time stamp of every vertex.
    pub times: Seq<i64>,
}

/// How far the walk of a trace has come.
pub struct Walker {
    /// For every slot the latest value of its signal.
    pub cache: Seq<Option<Seq<char>>>,
    /// The changes since the last time step.
    pub pending: Seq<(u64, Seq<LogicValue>)>,
    /// Whether the clock rose since the last time step.
    pub rising: bool,
    /// The cycle that the walk is in; minus one before the first.
    pub time: int,
    pub clock_val: LogicValue,
    /// The values found: a vertex and the value of its signal.
    pub out: Seq<(usize, Seq<char>)>,
    /// Whether the clock took a value without bits.
    pub failed: bool,
}

/// The cache after a change of `id` is stored for the first `upto` signals.
pub open spec fn store(env: WalkEnv, cache: Seq<Option<Seq<char>>>, id: u64, text: Seq<char>, upto: int)
    -> Seq<Option<Seq<char>>>
    decreases upto,
{
    if upto <= 0 {
        cache
    } else {
        let rest = store(env, cache, id, text, upto - 1);
        if env.codes[upto - 1] == id {
            rest.update(env.slots[upto - 1] as int, Some(text))
        } else {
            rest
        }
    }
}

/// The cache after the first `upto` pending changes are stored, in order.
pub open spec fn store_all(
    env: WalkEnv,
    cache: Seq<Option<Seq<char>>>,
    pending: Seq<(u64, Seq<LogicValue>)>,
    upto: int,
) -> Seq<Option<Seq<char>>>
    decreases upto,
{
    if upto <= 0 {
        cache
    } else {
        store(
            env,
            store_all(env, cache, pending, upto - 1),
            pending[upto - 1].0,
            bits_text(pending[upto - 1].1),
            env.codes.len() as int,
        )
    }
}

/// The cache after the text is stored for the first `upto` of the signals `list`.
pub open spec fn store_at(
    env: WalkEnv,
    cache: Seq<Option<Seq<char>>>,
    text: Seq<char>,
    list: Seq<usize>,
    upto: int,
) -> Seq<Option<Seq<char>>>
    decreases upto,
{
    if upto <= 0 {
        cache
    } else {
        store_at(env, cache, text, list, upto - 1).update(
            env.slots[list[upto - 1] as int] as int,
            Some(text),
        )
    }
}

/// Storing a change for all signals is storing it for the signals of its identifier.
pub proof fn lemma_store_at(
    env: WalkEnv,
    cache: Seq<Option<Seq<char>>>,
    id: u64,
    text: Seq<char>,
    upto: int,
)
    requires
        0 <= upto <= env.codes.len() <= usize::MAX,
    ensures
        store(env, cache, id, text, upto) == store_at(
            env,
            cache,
            text,
            code_positions(env.codes, id, upto),
            code_positions(env.codes, id, upto).len() as int,
        ),
    decreases upto,
{
    if upto > 0 {
        lemma_store_at(env, cache, id, text, upto - 1);
        let rest = code_positions(env.codes, id, upto - 1);
        let all = code_positions(env.codes, id, upto);
        if env.codes[upto - 1] == id {
            lemma_store_at_prefix(env, cache, text, rest, all, rest.len() as int);
        }
    }
}

/// Storing for a prefix of a list depends on the prefix alone.
pub proof fn lemma_store_at_prefix(
    env: WalkEnv,
    cache: Seq<Option<Seq<char>>>,
    text: Seq<char>,
    a: Seq<usize>,
    b: Seq<usize>,
    upto: int,
)
    requires
        0 <= upto <= a.len(),
        upto <= b.len(),
        forall|j: int| 0 <= j < upto ==> a[j] == b[j],
    ensures
        store_at(env, cache, text, a, upto) == store_at(env, cache, text, b, upto),
    decreases upto,
{
    if upto > 0 {
        lemma_store_at_prefix(env, cache, text, a, b, upto - 1);
    }
}

/// The values found after the first `upto` of the vertices `list` are
/// looked at: a vertex whose signal has a value is given it.
pub open spec fn emit(
    env: WalkEnv,
    cache: Seq<Option<Seq<char>>>,
    out: Seq<(usize, Seq<char>)>,
    list: Seq<usize>,
    upto: int,
) -> Seq<(usize, Seq<char>)>
    decreases upto,
{
    if upto <= 0 {
        out
    } else {
        let rest = emit(env, cache, out, list, upto - 1);
        let n = list[upto - 1];
        match env.node_slots[n as int] {
            Some(s) => match cache[s as int] {
                Some(v) => rest.push((n, v)),
                None => rest,
            },
            None => rest,
        }
    }
}

/// The walk after a time step. The pending changes become the values of
/// their signals. After a rising edge the vertices of the cycle at hand
/// are given their values and the next cycle begins; else the vertices of
/// the cycle before are given theirs once more.
pub open spec fn walk_step(env: WalkEnv, w: Walker) -> Walker {
    let cache = store_all(env, w.cache, w.pending, w.pending.len() as int);
    let at = if w.rising {
        if w.time < 0 {
            0
        } else {
            w.time
        }
    } else if w.time == -1 {
        -1
    } else {
        w.time - 1
    };
    let list = time_positions(env.times, at as i64, env.times.len() as int);
    Walker {
        cache,
        pending: seq![],
        rising: false,
        time: if w.rising {
            at + 1
        } else {
            w.time
        },
        out: emit(env, cache, w.out, list, list.len() as int),
        ..w
    }
}

/// The walk after one command.
pub open spec fn walk_command(env: WalkEnv, w: Walker, cmd: TraceCommand) -> Walker {
    if w.failed {
        w
    } else {
        match cmd {
            TraceCommand::Timestamp(_) => walk_step(env, w),
            TraceCommand::ChangeVector(id, bits) => if id == env.clock {
                if bits.len() == 0 {
                    Walker { failed: true, ..w }
                } else {
                    Walker {
                        rising: w.rising || (w.clock_val == LogicValue::V0 && bits[0]
                            == LogicValue::V1),
                        clock_val: bits[0],
                        ..w
                    }
                }
            } else {
                Walker { pending: w.pending.push((id, bits@)), ..w }
            },
            _ => w,
        }
    }
}

/// The walk after the first `upto` commands.
pub open spec fn walk_commands(env: WalkEnv, w: Walker, commands: Seq<TraceCommand>, upto: int)
    -> Walker
    decreases upto,
{
    if upto <= 0 {
        w
    } else {
        walk_command(env, walk_commands(env, w, commands, upto - 1), commands[upto - 1])
    }
}

/// The walk before the first command.
pub open spec fn start_walker(slots: nat) -> Walker {
    Walker {
        cache: Seq::new(slots, |s: int| None::<Seq<char>>),
        pending: seq![],
        rising: false,
        time: -1,
        clock_val: LogicValue::V0,
        out: seq![],
        failed: false,
    }
}

/// The names of a list of signals, as keys.
pub open spec fn signal_keys(signals: Seq<(u64, Seq<char>)>) -> Seq<Option<Seq<char>>> {
    Seq::new(signals.len(), |k: int| Some(signals[k].1))
}

/// The scopes below which the signals of a design stand.
pub open spec fn design_scopes() -> Seq<Seq<char>> {
    seq!["TOP"@, "svsimTestbench"@, "dut"@]
}

/// What the walk of the trace of a graph is made for.
pub open spec fn walk_env(vertices: Seq<ExportablePDGNode>, items: Seq<ScopeItem>) -> WalkEnv {
    let signals = signals_below(items, design_scopes());
    let keys = signal_keys(signals);
    WalkEnv {
        clock: var_at(items, design_scopes().push("clock"@))->0,
        codes: Seq::new(signals.len(), |k: int| signals[k].0),
        slots: Seq::new(signals.len(), |k: int| representative(keys, k)->0 as usize),
        node_slots: Seq::new(
            vertices.len(),
            |v: int|
                match vertices[v].related_signal {
                    Some(r) => match first_equal(keys, r.signal_path@, 0) {
                        Some(s) => Some(s as usize),
                        None => None,
                    },
                    None => None,
                },
        ),
        times: stamps_of(vertices),
    }
}

/// A value of the simulation for a vertex of a graph.
#[derive(Debug)]
pub struct Injection {
    pub node: usize,
    /// The bits of the signal of the vertex, as text.
    pub value: String,
}

impl DeepView for Injection {
    type V = (usize, Seq<char>);

    open spec fn deep_view(&self) -> (usize, Seq<char>) {
        (self.node, self.value@)
    }
}

/// The design scopes as a path.
pub fn design_path() -> (path: Vec<String>)
    ensures
        path.deep_view() == design_scopes(),
{
    let mut path: Vec<String> = Vec::new();
    path.push("TOP".to_owned());
    path.push("svsimTestbench".to_owned());
    path.push("dut".to_owned());
    assert(path.deep_view() =~= design_scopes());
    path
}

/// Walks a trace and finds the values that belong to the vertices of a
/// graph, in the order in which they are to be given. A later value of a
/// vertex takes the place of an earlier one. The trace needs the clock of
/// the design, and its clock must not take a value without bits.
pub fn plan_injection(pdg: &ExportablePDG, header: &Header, commands: &Vec<TraceCommand>) -> (r:
    Result<Vec<Injection>, Error>)
    requires
        commands.len() < i64::MAX,
    ensures
        match r {
            Ok(plan) => {
                let env = walk_env(pdg.vertices@, header.items@);
                let end = walk_commands(
                    env,
                    start_walker(env.codes.len()),
                    commands@,
                    commands.len() as int,
                );
                &&& var_at(header.items@, design_scopes().push("clock"@)) is Some
                &&& !end.failed
                &&& plan.deep_view() == end.out
                &&& forall|q: int|
                    0 <= q < plan.len() ==> (#[trigger] plan[q]).node < pdg.vertices.len()
            },
            Err(Error::ClockNotFoundError) => var_at(
                header.items@,
                design_scopes().push("clock"@),
            ) is None,
            Err(Error::MalformedVCD) => {
                let env = walk_env(pdg.vertices@, header.items@);
                &&& var_at(header.items@, design_scopes().push("clock"@)) is Some
                &&& walk_commands(
                    env,
                    start_walker(env.codes.len()),
                    commands@,
                    commands.len() as int,
                ).failed
            },
            Err(_) => false,
        },
{
    let top = design_path();
    let mut clock_path = clone_strings(&top);
    clock_path.push("clock".to_owned());
    assert(clock_path.deep_view() =~= design_scopes().push("clock"@));
    let clock = match header.find_var(&clock_path) {
        Some(code) => code,
        None => {
            return Err(Error::ClockNotFoundError);
        },
    };
    assert(var_at(header.items@, design_scopes().push("clock"@)) == Some(clock));
    let signals = build_signal_map(header, &top);
    let ghost env = walk_env(pdg.vertices@, header.items@);
    let mut names: Vec<Option<String>> = Vec::new();
    let mut k: usize = 0;
    while k < signals.len()
        invariant
            k <= signals.len(),
            names.len() == k,
            forall|j: int| 0 <= j < k ==> (#[trigger] names[j]).deep_view() == Some(signals[j].name@),
        decreases signals.len() - k,
    {
        names.push(Some(signals[k].name.clone()));
        k = k + 1;
    }
    assert(names.deep_view() =~= signal_keys(signals.deep_view()));
    let (name_index, reps) = index_texts(&names);
    let mut slots: Vec<usize> = Vec::new();
    let mut cache: Vec<Option<String>> = Vec::new();
    let mut j: usize = 0;
    while j < signals.len()
        invariant
            j <= signals.len(),
            slots.len() == j,
            cache.len() == j,
            reps.len() == signals.len(),
            names.len() == signals.len(),
            names.deep_view() == signal_keys(signals.deep_view()),
            env.slots.len() == signals.len(),
            env == walk_env(pdg.vertices@, header.items@),
            signals.deep_view() == signals_below(header.items@, design_scopes()),
            forall|q: int|
                0 <= q < names.len() ==> (#[trigger] reps[q] matches Some(x) ==> representative(
                    names.deep_view(),
                    q,
                ) == Some(x as int)),
            forall|q: int|
                0 <= q < names.len() ==> (#[trigger] reps[q] is None ==> representative(
                    names.deep_view(),
                    q,
                ) is None),
            forall|q: int| 0 <= q < j ==> #[trigger] slots[q] == env.slots[q] && slots[q] < signals.len(),
            forall|q: int| 0 <= q < j ==> #[trigger] cache[q] is None,
        decreases signals.len() - j,
    {
        proof {
            crate::text::lemma_representative(names.deep_view(), j as int, j as int);
        }
        let slot = match reps[j] {
            Some(x) => x,
            None => j,
        };
        slots.push(slot);
        cache.push(None);
        j = j + 1;
    }
    assert(slots@ =~= env.slots);
    let mut by_code = CodeIndex::new();
    let mut b: usize = 0;
    while b < signals.len()
        invariant
            b <= signals.len(),
            env.codes.len() == signals.len(),
            forall|q: int| 0 <= q < signals.len() ==> (#[trigger] signals[q]).code == env.codes[q],
            by_code.holds(env.codes, b as int),
        decreases signals.len() - b,
    {
        by_code.enter(signals[b].code, b, Ghost(env.codes));
        b = b + 1;
    }
    let mut node_slots: Vec<Option<usize>> = Vec::new();
    let mut v: usize = 0;
    while v < pdg.vertices.len()
        invariant
            v <= pdg.vertices.len(),
            node_slots.len() == v,
            names.len() == signals.len(),
            name_index.holds(names.deep_view(), names.len() as int),
            names.deep_view() == signal_keys(signals.deep_view()),
            env == walk_env(pdg.vertices@, header.items@),
            signals.deep_view() == signals_below(header.items@, design_scopes()),
            forall|q: int| 0 <= q < v ==> #[trigger] node_slots[q] == env.node_slots[q],
            forall|q: int|
                0 <= q < v ==> (#[trigger] node_slots[q] matches Some(s) ==> s < signals.len()),
        decreases pdg.vertices.len() - v,
    {
        let slot = match &pdg.vertices[v].related_signal {
            Some(r) => find_indexed(&name_index, &names, r.signal_path.as_str()),
            None => None,
        };
        node_slots.push(slot);
        v = v + 1;
    }
    assert(node_slots@ =~= env.node_slots);
    let by_time = index_times(&pdg.vertices);
    let mut plan: Vec<Injection> = Vec::new();
    let mut pending: Vec<(u64, String)> = Vec::new();
    let mut rising_edge_found = false;
    let mut current_timestamp: i64 = -1;
    let mut clock_val = LogicValue::V0;
    let ghost start = start_walker(env.codes.len());
    let ghost mut w = start;
    assert(Seq::new(cache.len() as nat, |s: int| cache[s].deep_view()) =~= start.cache);
    assert(plan.deep_view() =~= start.out);
    let mut c: usize = 0;
    while c < commands.len()
        invariant
            c <= commands.len(),
            commands.len() < i64::MAX,
            env == walk_env(pdg.vertices@, header.items@),
            var_at(header.items@, design_scopes().push("clock"@)) == Some(clock),
            env.clock == clock,
            signals.len() == env.codes.len(),
            by_code.holds(env.codes, env.codes.len() as int),
            slots@ == env.slots,
            forall|q: int| 0 <= q < slots.len() ==> (#[trigger] slots[q]) < signals.len(),
            node_slots@ == env.node_slots,
            node_slots.len() == pdg.vertices.len(),
            forall|q: int|
                0 <= q < node_slots.len() ==> (#[trigger] node_slots[q] matches Some(s) ==> s
                    < signals.len()),
            env.times == stamps_of(pdg.vertices@),
            by_time.holds(env.times, env.times.len() as int),
            cache.len() == signals.len(),
            start == start_walker(env.codes.len()),
            w == walk_commands(env, start, commands@, c as int),
            !w.failed,
            w.cache == Seq::new(cache.len() as nat, |s: int| cache[s].deep_view()),
            w.pending.len() == pending.len(),
            forall|q: int|
                0 <= q < pending.len() ==> (#[trigger] pending[q]).0 == w.pending[q].0
                    && pending[q].1@ == bits_text(w.pending[q].1),
            w.rising == rising_edge_found,
            w.time == current_timestamp,
            -1 <= current_timestamp <= c,
            w.clock_val == clock_val,
            w.out == plan.deep_view(),
            forall|q: int| 0 <= q < plan.len() ==> (#[trigger] plan[q]).node < pdg.vertices.len(),
        decreases commands.len() - c,
    {
        let ghost before = w;
        match &commands[c] {
            TraceCommand::Timestamp(_t) => {
                store_pending(&by_code, &slots, &pending, &mut cache, Ghost(env), Ghost(w.pending));
                pending.clear();
                let at = if rising_edge_found {
                    if current_timestamp < 0 {
                        0
                    } else {
                        current_timestamp
                    }
                } else if current_timestamp == -1 {
                    -1
                } else {
                    current_timestamp - 1
                };
                proof {
                    lemma_time_positions(env.times, at, env.times.len() as int);
                }
                match by_time.at(at, Ghost(env.times), Ghost(env.times.len() as int)) {
                    Some(list) => {
                        emit_values(list, &node_slots, &cache, &mut plan, Ghost(env));
                    },
                    None => {},
                }
                if rising_edge_found {
                    current_timestamp = at + 1;
                    rising_edge_found = false;
                }
                proof {
                    w = walk_step(env, before);
                    assert(w.pending =~= Seq::<(u64, Seq<LogicValue>)>::empty());
                }
            },
            TraceCommand::ChangeVector(id, bits) => {
                if *id == clock {
                    if bits.len() == 0 {
                        proof {
                            let failed = walk_commands(env, start, commands@, c + 1);
                            assert(failed == walk_command(env, before, commands@[c as int]));
                            assert(failed.failed);
                            lemma_failed_stays(env, start, commands@, c + 1, commands.len() as int);
                        }
                        return Err(Error::MalformedVCD);
                    }
                    let new_clock_val = bits[0];
                    if clock_val == LogicValue::V0 && new_clock_val == LogicValue::V1 {
                        rising_edge_found = true;
                    }
                    clock_val = new_clock_val;
                    proof {
                        w = walk_command(env, before, commands@[c as int]);
                    }
                } else {
                    pending.push((*id, vector_text(bits)));
                    proof {
                        w = walk_command(env, before, commands@[c as int]);
                    }
                }
            },
            _ => {
                proof {
                    w = walk_command(env, before, commands@[c as int]);
                }
            },
        }
        c = c + 1;
    }
    Ok(plan)
}

/// A walk that failed stays failed.
pub proof fn lemma_failed_stays(
    env: WalkEnv,
    w: Walker,
    commands: Seq<TraceCommand>,
    from: int,
    upto: int,
)
    requires
        0 <= from <= upto,
        walk_commands(env, w, commands, from).failed,
    ensures
        walk_commands(env, w, commands, upto).failed,
    decreases upto - from,
{
    if from < upto {
        lemma_failed_stays(env, w, commands, from, upto - 1);
    }
}

fn store_pending(
    by_code: &CodeIndex,
    slots: &Vec<usize>,
    pending: &Vec<(u64, String)>,
    cache: &mut Vec<Option<String>>,
    Ghost(env): Ghost<WalkEnv>,
    Ghost(changes): Ghost<Seq<(u64, Seq<LogicValue>)>>,
)
    requires
        by_code.holds(env.codes, env.codes.len() as int),
        slots@ == env.slots,
        slots.len() == env.codes.len(),
        forall|q: int| 0 <= q < slots.len() ==> (#[trigger] slots[q]) < slots.len(),
        old(cache).len() == slots.len(),
        changes.len() == pending.len(),
        forall|q: int|
            0 <= q < pending.len() ==> (#[trigger] pending[q]).0 == changes[q].0 && pending[q].1@
                == bits_text(changes[q].1),
    ensures
        final(cache).len() == slots.len(),
        Seq::new(final(cache).len() as nat, |s: int| final(cache)[s].deep_view()) == store_all(
            env,
            Seq::new(old(cache).len() as nat, |s: int| old(cache)[s].deep_view()),
            changes,
            changes.len() as int,
        ),
{
    let ghost first = Seq::new(cache.len() as nat, |s: int| cache[s].deep_view());
    let mut p: usize = 0;
    while p < pending.len()
        invariant
            p <= pending.len(),
            by_code.holds(env.codes, env.codes.len() as int),
            slots@ == env.slots,
            slots.len() == env.codes.len(),
            forall|q: int| 0 <= q < slots.len() ==> (#[trigger] slots[q]) < slots.len(),
            cache.len() == slots.len(),
            changes.len() == pending.len(),
            forall|q: int|
                0 <= q < pending.len() ==> (#[trigger] pending[q]).0 == changes[q].0
                    && pending[q].1@ == bits_text(changes[q].1),
            Seq::new(cache.len() as nat, |s: int| cache[s].deep_view()) == store_all(
                env,
                first,
                changes,
                p as int,
            ),
        decreases pending.len() - p,
    {
        let id = pending[p].0;
        let ghost text = pending[p as int].1@;
        let ghost at_change = Seq::new(cache.len() as nat, |s: int| cache[s].deep_view());
        let ghost positions = code_positions(env.codes, id, env.codes.len() as int);
        proof {
            lemma_store_at(env, at_change, id, text, env.codes.len() as int);
            lemma_code_positions(env.codes, id, env.codes.len() as int);
        }
        match by_code.at(id) {
            Some(list) => {
                let mut k: usize = 0;
                while k < list.len()
                    invariant
                        k <= list.len(),
                        p < pending.len(),
                        text == pending[p as int].1@,
                        list@ == positions,
                        forall|j: int| 0 <= j < positions.len() ==> (#[trigger] positions[j]) < slots.len(),
                        slots@ == env.slots,
                        forall|q: int| 0 <= q < slots.len() ==> (#[trigger] slots[q]) < slots.len(),
                        cache.len() == slots.len(),
                        Seq::new(cache.len() as nat, |s: int| cache[s].deep_view()) == store_at(
                            env,
                            at_change,
                            text,
                            positions,
                            k as int,
                        ),
                    decreases list.len() - k,
                {
                    let ghost held = Seq::new(cache.len() as nat, |s: int| cache[s].deep_view());
                    cache.set(slots[list[k]], Some(pending[p].1.clone()));
                    assert(Seq::new(cache.len() as nat, |s: int| cache[s].deep_view())
                        =~= held.update(slots[list[k as int] as int] as int, Some(text)));
                    k = k + 1;
                }
            },
            None => {},
        }
        p = p + 1;
    }
}

fn emit_values(
    list: &Vec<usize>,
    node_slots: &Vec<Option<usize>>,
    cache: &Vec<Option<String>>,
    plan: &mut Vec<Injection>,
    Ghost(env): Ghost<WalkEnv>,
)
    requires
        node_slots@ == env.node_slots,
        forall|q: int| 0 <= q < list.len() ==> (#[trigger] list[q]) < node_slots.len(),
        forall|q: int|
            0 <= q < node_slots.len() ==> (#[trigger] node_slots[q] matches Some(s) ==> s
                < cache.len()),
        forall|q: int| 0 <= q < old(plan).len() ==> (#[trigger] old(plan)[q]).node < node_slots.len(),
    ensures
        final(plan).deep_view() == emit(
            env,
            Seq::new(cache.len() as nat, |s: int| cache[s].deep_view()),
            old(plan).deep_view(),
            list@,
            list.len() as int,
        ),
        forall|j: int|
            0 <= j < final(plan).len() ==> (#[trigger] final(plan)[j]).node < node_slots.len(),
{
    let ghost values = Seq::new(cache.len() as nat, |s: int| cache[s].deep_view());
    let mut q: usize = 0;
    while q < list.len()
        invariant
            q <= list.len(),
            node_slots@ == env.node_slots,
            values == Seq::new(cache.len() as nat, |s: int| cache[s].deep_view()),
            forall|j: int| 0 <= j < list.len() ==> (#[trigger] list[j]) < node_slots.len(),
            forall|j: int|
                0 <= j < node_slots.len() ==> (#[trigger] node_slots[j] matches Some(s) ==> s
                    < cache.len()),
            plan.deep_view() == emit(env, values, old(plan).deep_view(), list@, q as int),
            forall|j: int| 0 <= j < plan.len() ==> (#[trigger] plan[j]).node < node_slots.len(),
        decreases list.len() - q,
    {
        let n = list[q];
        let ghost before = plan.deep_view();
        match node_slots[n] {
            Some(s) => {
                assert(values[s as int] == cache[s as int].deep_view());
                match &cache[s] {
                    Some(value) => {
                        plan.push(Injection { node: n, value: value.clone() });
                        assert(plan.deep_view() =~= before.push((n, value@)));
                    },
                    None => {},
                }
            },
            None => {},
        }
        q = q + 1;
    }
}

/// The path of the signal of a vertex below the design scopes, and the
/// path of the field inside it; nothing for a vertex without a signal.
pub fn signal_route(node: &ExportablePDGNode) -> (r: Option<(Vec<String>, Vec<String>)>)
    ensures
        match (r, node.related_signal) {
            (Some(route), Some(signal)) => {
                &&& route.0.deep_view() == design_scopes() + split_on(signal.signal_path@, '.')
                &&& route.1.deep_view() == split_on(signal.field_path@, '.')
            },
            (None, None) => true,
            _ => false,
        },
{
    match &node.related_signal {
        Some(signal) => {
            let mut hier_path = design_path();
            let mut parts = split(signal.signal_path.as_str(), '.');
            let ghost a = hier_path.deep_view();
            let ghost b = parts.deep_view();
            hier_path.append(&mut parts);
            assert(hier_path.deep_view() =~= a + b);
            Some((hier_path, split(signal.field_path.as_str(), '.')))
        },
        None => None,
    }
}

} // verus!
