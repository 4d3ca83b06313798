//! The cycle reader: it walks the commands of a trace from one rising clock
//! edge to the next and keeps the current probe values.

use vstd::prelude::*;
use vstd::string::*;
use crate::errors::Error;
use crate::codes::{code_positions, lemma_code_positions, CodeIndex};
use crate::interning::index_texts;
use crate::text::{clone_strings, representative};
use crate::trace::{
    bits_value, bitvector_to_unsigned, find_probes, probes_below, scalar_value, var_at,
    word_modulus, Header, LogicValue, Probe, TraceCommand, ValueChange,
};

verus! {

/// The part of a reader that reading changes.
pub struct ReaderState {
    /// How many commands have been consumed.
    pub pos: int,
    /// How many cycles have been read.
    pub current_time: i64,
    pub clock_val: LogicValue,
    pub reset_val: LogicValue,
    /// Changes seen since the last time step that was no rising edge.
    pub changes_buffer: Seq<ValueChange>,
    /// The value of each probe slot, once it has been committed.
    pub probe_values: Seq<Option<u64>>,
    /// Probe updates that wait for the next time step.
    pub pending: Seq<(usize, u64)>,
}

/// The part of a reader that is fixed when it is made.
pub struct ReaderEnv {
    pub clock: u64,
    pub reset: u64,
    /// The identifier of each probe.
    pub codes: Seq<u64>,
    /// The slot of each probe: the first probe with the same path.
    pub slots: Seq<usize>,
}

/// A reader in the middle of one cycle.
pub struct ReadProgress {
    pub state: ReaderState,
    /// The changes handed out for this cycle so far.
    pub changes: Seq<ValueChange>,
    /// Whether a rising clock edge was seen in this cycle.
    pub rising: bool,
}

/// The updates that a change of `code` to `value` makes: one for each of the
/// first `upto` probes with that identifier, in order.
pub open spec fn probe_hits(env: ReaderEnv, code: u64, value: u64, upto: int) -> Seq<(usize, u64)>
    decreases upto,
{
    if upto <= 0 {
        seq![]
    } else {
        let rest = probe_hits(env, code, value, upto - 1);
        if env.codes[upto - 1] == code {
            rest.push((env.slots[upto - 1], value))
        } else {
            rest
        }
    }
}

/// The probe values after the pending updates, applied in order.
pub open spec fn commit(values: Seq<Option<u64>>, pending: Seq<(usize, u64)>) -> Seq<Option<u64>>
    decreases pending.len(),
{
    if pending.len() == 0 {
        values
    } else {
        commit(values, pending.drop_last()).update(
            pending.last().0 as int,
            Some(pending.last().1),
        )
    }
}

/// The value that a vector change gives a probe.
pub open spec fn vector_value(bits: Seq<LogicValue>) -> u64 {
    (bits_value(bits) as int % word_modulus()) as u64
}

/// The reader after one command that does not end the cycle.
pub open spec fn absorb(env: ReaderEnv, p: ReadProgress, cmd: TraceCommand) -> ReadProgress {
    let st = p.state;
    match cmd {
        TraceCommand::Timestamp(_) => ReadProgress {
            state: ReaderState {
                changes_buffer: seq![],
                probe_values: commit(st.probe_values, st.pending),
                pending: seq![],
                ..st
            },
            changes: p.changes + st.changes_buffer,
            rising: p.rising,
        },
        TraceCommand::ChangeScalar(id, v) => if id == env.clock {
            ReadProgress {
                state: ReaderState { clock_val: v, ..st },
                changes: p.changes,
                rising: p.rising || (st.clock_val == LogicValue::V0 && v == LogicValue::V1),
            }
        } else if id == env.reset {
            ReadProgress { state: ReaderState { reset_val: v, ..st }, ..p }
        } else {
            let hits = probe_hits(env, id, scalar_value(v), env.codes.len() as int);
            if hits.len() > 0 {
                ReadProgress { state: ReaderState { pending: st.pending + hits, ..st }, ..p }
            } else {
                ReadProgress {
                    state: ReaderState {
                        changes_buffer: st.changes_buffer.push(ValueChange { id, value: v }),
                        ..st
                    },
                    ..p
                }
            }
        },
        TraceCommand::ChangeVector(id, bits) => ReadProgress {
            state: ReaderState {
                pending: st.pending + probe_hits(
                    env,
                    id,
                    vector_value(bits@),
                    env.codes.len() as int,
                ),
                ..st
            },
            ..p
        },
        TraceCommand::Other => p,
    }
}

/// Whether `cmd` ends the cycle of `p`: a time step after a rising edge.
pub open spec fn ends_cycle(p: ReadProgress, cmd: TraceCommand) -> bool {
    cmd is Timestamp && p.rising
}

/// The reader at the end of the cycle that it is in, and whether the trace
/// ended before a time step closed the cycle.
pub open spec fn read_on(env: ReaderEnv, commands: Seq<TraceCommand>, p: ReadProgress) -> (
    ReadProgress,
    bool,
)
    decreases commands.len() - p.state.pos,
{
    let pos = p.state.pos;
    if pos < 0 || pos >= commands.len() {
        (p, true)
    } else if ends_cycle(p, commands[pos]) {
        (ReadProgress { state: ReaderState { pos: pos + 1, ..p.state }, ..p }, false)
    } else {
        let q = absorb(env, p, commands[pos]);
        read_on(
            env,
            commands,
            ReadProgress { state: ReaderState { pos: pos + 1, ..q.state }, ..q },
        )
    }
}

/// Reading never moves backwards, stays inside the trace, and moves
/// forward whenever the cycle is closed before the trace ends.
pub proof fn lemma_read_on_pos(env: ReaderEnv, commands: Seq<TraceCommand>, p: ReadProgress)
    requires
        0 <= p.state.pos <= commands.len(),
    ensures
        p.state.pos <= read_on(env, commands, p).0.state.pos <= commands.len(),
        !read_on(env, commands, p).1 ==> p.state.pos < read_on(env, commands, p).0.state.pos,
        read_on(env, commands, p).0.state.current_time == p.state.current_time,
    decreases commands.len() - p.state.pos,
{
    let pos = p.state.pos;
    if pos < commands.len() && !ends_cycle(p, commands[pos]) {
        let q = absorb(env, p, commands[pos]);
        lemma_read_on_pos(
            env,
            commands,
            ReadProgress { state: ReaderState { pos: pos + 1, ..q.state }, ..q },
        );
    }
}

/// What reading one cycle gives: the reader afterwards, the changes of the
/// cycle, and whether the trace has ended.
pub open spec fn read_cycle(env: ReaderEnv, commands: Seq<TraceCommand>, st: ReaderState) -> (
    ReaderState,
    Seq<ValueChange>,
    bool,
) {
    let (p, eof) = read_on(env, commands, ReadProgress { state: st, changes: seq![], rising: false });
    (ReaderState { current_time: (st.current_time + 1) as i64, ..p.state }, p.changes, eof)
}

/// Reads a trace cycle by cycle.
#[derive(Debug)]
pub struct VcdReader {
    pub extra_scopes: Vec<String>,
    pub clock: u64,
    pub reset: u64,
    pub reset_val: LogicValue,
    pub current_time: i64,
    pub clock_val: LogicValue,
    pub pos: usize,
    pub changes_buffer: Vec<ValueChange>,
    pub probes: Vec<Probe>,
    pub slots: Vec<usize>,
    /// The probes by their identifiers.
    pub by_code: CodeIndex,
    pub probe_values: Vec<Option<u64>>,
    pub probe_change_buffer: Vec<(usize, u64)>,
}

/// The paths of a probe list, as keys.
pub open spec fn probe_keys(probes: Seq<(u64, Seq<char>)>) -> Seq<Option<Seq<char>>> {
    Seq::new(probes.len(), |k: int| Some(probes[k].1))
}

/// The updates that a change makes are those of the probes at the
/// positions of its identifier.
pub proof fn lemma_hits_by_positions(env: ReaderEnv, code: u64, value: u64, upto: int)
    requires
        0 <= upto <= env.codes.len() <= usize::MAX,
    ensures
        probe_hits(env, code, value, upto).len() == code_positions(env.codes, code, upto).len(),
        forall|j: int|
            0 <= j < code_positions(env.codes, code, upto).len() ==> #[trigger] probe_hits(
                env,
                code,
                value,
                upto,
            )[j] == (env.slots[code_positions(env.codes, code, upto)[j] as int], value),
    decreases upto,
{
    if upto > 0 {
        lemma_hits_by_positions(env, code, value, upto - 1);
        let rest = code_positions(env.codes, code, upto - 1);
        let all = code_positions(env.codes, code, upto);
        let hits = probe_hits(env, code, value, upto);
        let before = probe_hits(env, code, value, upto - 1);
        assert forall|j: int| 0 <= j < all.len() implies #[trigger] hits[j] == (
            env.slots[all[j] as int],
            value,
        ) by {
            if j < rest.len() {
                assert(all[j] == rest[j]);
                assert(hits[j] == before[j]);
            }
        }
    }
}

/// The paths of `probes`, each as a key of its own.
pub fn probe_key_list(probes: &Vec<Probe>) -> (keys: Vec<Option<String>>)
    ensures
        keys.deep_view() == probe_keys(probes.deep_view()),
{
    let mut keys: Vec<Option<String>> = Vec::new();
    let mut i: usize = 0;
    while i < probes.len()
        invariant
            i <= probes.len(),
            keys.len() == i,
            forall|k: int| 0 <= k < i ==> (#[trigger] keys[k]).deep_view() == Some(probes[k].path@),
        decreases probes.len() - i,
    {
        keys.push(Some(probes[i].path.clone()));
        i = i + 1;
    }
    assert(keys.deep_view() =~= probe_keys(probes.deep_view()));
    keys
}

impl View for VcdReader {
    type V = ReaderState;

    open spec fn view(&self) -> ReaderState {
        ReaderState {
            pos: self.pos as int,
            current_time: self.current_time,
            clock_val: self.clock_val,
            reset_val: self.reset_val,
            changes_buffer: self.changes_buffer@,
            probe_values: self.probe_values@,
            pending: self.probe_change_buffer@,
        }
    }
}

impl VcdReader {
    /// The fixed part of this reader.
    pub open spec fn env(&self) -> ReaderEnv {
        ReaderEnv {
            clock: self.clock,
            reset: self.reset,
            codes: Seq::new(self.probes.len() as nat, |k: int| self.probes[k].code),
            slots: self.slots@,
        }
    }

    /// The slot that stands for the probe called `name`, if there is such a probe.
    pub open spec fn slot_of(&self, name: Seq<char>) -> Option<int> {
        crate::text::first_equal(probe_keys(self.probes.deep_view()), name, 0)
    }

    /// The current value of the probe called `name`, if it has one.
    pub open spec fn probe_value(&self, name: Seq<char>) -> Option<u64> {
        match self.slot_of(name) {
            Some(slot) => self.probe_values[slot],
            None => None,
        }
    }

    /// Every probe has its slot, every slot has a value entry, and every
    /// pending update names a slot.
    pub open spec fn wf(&self) -> bool {
        &&& self.slots.len() == self.probes.len()
        &&& self.probe_values.len() == self.probes.len()
        &&& forall|k: int|
            0 <= k < self.probes.len() ==> representative(
                probe_keys(self.probes.deep_view()),
                k,
            ) == Some(#[trigger] self.slots[k] as int)
        &&& forall|k: int| 0 <= k < self.slots.len() ==> #[trigger] self.slots[k] < self.probes.len()
        &&& forall|k: int|
            0 <= k < self.probe_change_buffer.len() ==> (#[trigger] self.probe_change_buffer[k]).0
                < self.probes.len()
        &&& self.current_time >= 0
        &&& self.by_code.holds(self.env().codes, self.probes.len() as int)
    }

    /// A reader at the start of a trace with this header. The clock and the
    /// reset are the variables `clock` and `reset` below the scope root
    /// `extra_scopes`; without either there is no reader.
    pub fn new(header: &Header, extra_scopes: Vec<String>) -> (r: Result<VcdReader, Error>)
        ensures
            match r {
                Ok(reader) => {
                    &&& reader.wf()
                    &&& var_at(header.items@, extra_scopes.deep_view().push("clock"@)) == Some(
                        reader.clock,
                    )
                    &&& var_at(header.items@, extra_scopes.deep_view().push("reset"@)) == Some(
                        reader.reset,
                    )
                    &&& reader.probes.deep_view() == probes_below(
                        header.items@,
                        extra_scopes.deep_view(),
                    )
                    &&& reader.extra_scopes.deep_view() == extra_scopes.deep_view()
                    &&& reader@ == ReaderState {
                        pos: 0,
                        current_time: 0,
                        clock_val: LogicValue::X,
                        reset_val: LogicValue::X,
                        changes_buffer: seq![],
                        probe_values: Seq::new(reader.probes.len() as nat, |k: int| None),
                        pending: seq![],
                    }
                },
                Err(e) => {
                    &&& e is ClockNotFoundError
                    &&& (var_at(header.items@, extra_scopes.deep_view().push("clock"@)) is None
                        || var_at(header.items@, extra_scopes.deep_view().push("reset"@)) is None)
                },
            },
    {
        let mut clock_path = clone_strings(&extra_scopes);
        clock_path.push("clock".to_owned());
        assert(clock_path.deep_view() =~= extra_scopes.deep_view().push("clock"@));
        let mut reset_path = clone_strings(&extra_scopes);
        reset_path.push("reset".to_owned());
        assert(reset_path.deep_view() =~= extra_scopes.deep_view().push("reset"@));
        let clock = match header.find_var(&clock_path) {
            Some(code) => code,
            None => {
                return Err(Error::ClockNotFoundError);
            },
        };
        let reset = match header.find_var(&reset_path) {
            Some(code) => code,
            None => {
                return Err(Error::ClockNotFoundError);
            },
        };
        let probes = find_probes(header, &extra_scopes);
        let keys = probe_key_list(&probes);
        let mut probe_values: Vec<Option<u64>> = Vec::new();
        let mut i: usize = 0;
        while i < probes.len()
            invariant
                i <= probes.len(),
                probe_values.len() == i,
                forall|k: int| 0 <= k < i ==> #[trigger] probe_values[k] is None,
            decreases probes.len() - i,
        {
            probe_values.push(None);
            i = i + 1;
        }
        let (_, reps) = index_texts(&keys);
        let mut slots: Vec<usize> = Vec::new();
        let mut j: usize = 0;
        while j < probes.len()
            invariant
                j <= probes.len(),
                slots.len() == j,
                reps.len() == probes.len(),
                keys.len() == probes.len(),
                keys.deep_view() == probe_keys(probes.deep_view()),
                forall|k: int|
                    0 <= k < keys.len() ==> (#[trigger] reps[k] matches Some(r) ==> representative(
                        keys.deep_view(),
                        k,
                    ) == Some(r as int)),
                forall|k: int|
                    0 <= k < keys.len() ==> (#[trigger] reps[k] is None ==> representative(
                        keys.deep_view(),
                        k,
                    ) is None),
                forall|k: int|
                    0 <= k < j ==> representative(probe_keys(probes.deep_view()), k) == Some(
                        #[trigger] slots[k] as int,
                    ) && slots[k] < probes.len(),
            decreases probes.len() - j,
        {
            proof {
                crate::text::lemma_representative(keys.deep_view(), j as int, j as int);
            }
            let slot = match reps[j] {
                Some(r) => r,
                None => j,
            };
            slots.push(slot);
            j = j + 1;
        }
        let ghost codes = Seq::new(probes.len() as nat, |k: int| probes[k].code);
        let mut by_code = CodeIndex::new();
        let mut c: usize = 0;
        while c < probes.len()
            invariant
                c <= probes.len(),
                codes == Seq::new(probes.len() as nat, |k: int| probes[k].code),
                by_code.holds(codes, c as int),
            decreases probes.len() - c,
        {
            by_code.enter(probes[c].code, c, Ghost(codes));
            c = c + 1;
        }
        let reader = VcdReader {
            extra_scopes,
            clock,
            reset,
            reset_val: LogicValue::X,
            current_time: 0,
            clock_val: LogicValue::X,
            pos: 0,
            changes_buffer: Vec::new(),
            probes,
            slots,
            by_code,
            probe_values,
            probe_change_buffer: Vec::new(),
        };
        assert(reader.env().codes =~= codes);
        assert(reader@.probe_values =~= Seq::new(reader.probes.len() as nat, |k: int| None));
        Ok(reader)
    }

    /// The identifier of the variable at the dotted path `hierarchy` below the scope root.
    pub fn find_var(&self, header: &Header, hierarchy: &str) -> (r: Result<u64, Error>)
        ensures
            match r {
                Ok(code) => var_at(
                    header.items@,
                    self.extra_scopes.deep_view() + crate::text::split_on(hierarchy@, '.'),
                ) == Some(code),
                Err(e) => {
                    &&& var_at(
                        header.items@,
                        self.extra_scopes.deep_view() + crate::text::split_on(hierarchy@, '.'),
                    ) is None
                    &&& e matches Error::VariableNotFoundError(path)
                    &&& path@ == crate::text::join_all(
                        self.extra_scopes.deep_view() + crate::text::split_on(hierarchy@, '.'),
                    )
                },
            },
    {
        let mut hier_path = clone_strings(&self.extra_scopes);
        let mut parts = crate::text::split(hierarchy, '.');
        let ghost a = hier_path.deep_view();
        let ghost b = parts.deep_view();
        hier_path.append(&mut parts);
        assert(hier_path.deep_view() =~= a + b);
        match header.find_var(&hier_path) {
            Some(code) => Ok(code),
            None => Err(Error::VariableNotFoundError(crate::text::join_with_dots(&hier_path))),
        }
    }

    fn push_hits(&mut self, code: u64, value: u64) -> (found: bool)
        requires
            old(self).wf(),
        ensures
            final(self).wf(),
            final(self).env() == old(self).env(),
            final(self).probes == old(self).probes,
            final(self).extra_scopes == old(self).extra_scopes,
            final(self)@ == (ReaderState {
                pending: old(self)@.pending + probe_hits(
                    old(self).env(),
                    code,
                    value,
                    old(self).probes.len() as int,
                ),
                ..old(self)@
            }),
            found == (probe_hits(old(self).env(), code, value, old(self).probes.len() as int).len()
                > 0),
    {
        let ghost env = self.env();
        let ghost n = self.probes.len() as int;
        let ghost positions = code_positions(env.codes, code, n);
        proof {
            lemma_hits_by_positions(env, code, value, n);
            lemma_code_positions(env.codes, code, n);
        }
        let ghost hits = probe_hits(env, code, value, n);
        match self.by_code.at(code) {
            Some(list) => {
                let mut k: usize = 0;
                assert(self.probe_change_buffer@ + hits.take(0) =~= self.probe_change_buffer@);
                while k < list.len()
                    invariant
                        k <= list.len(),
                        list@ == positions,
                        hits.len() == positions.len(),
                        forall|j: int|
                            0 <= j < positions.len() ==> (#[trigger] positions[j]) < self.slots.len()
                                && hits[j] == (env.slots[positions[j] as int], value),
                        old(self).wf(),
                        env == old(self).env(),
                        *self == (VcdReader {
                            probe_change_buffer: self.probe_change_buffer,
                            ..*old(self)
                        }),
                        self.probe_change_buffer@ == old(self)@.pending + hits.take(k as int),
                    decreases list.len() - k,
                {
                    self.probe_change_buffer.push((self.slots[list[k]], value));
                    assert(hits.take(k + 1) =~= hits.take(k as int).push(hits[k as int]));
                    k = k + 1;
                }
                assert(hits.take(hits.len() as int) =~= hits);
                proof {
                    assert forall|j: int| 0 <= j < self.probe_change_buffer.len() implies (
                    #[trigger] self.probe_change_buffer[j]).0 < self.probes.len() by {
                        if j < old(self)@.pending.len() {
                            assert(self.probe_change_buffer[j] == old(self).probe_change_buffer[j]);
                        } else {
                            let q = j - old(self)@.pending.len();
                            assert(self.probe_change_buffer[j] == hits[q]);
                            assert(self.slots[positions[q] as int] < self.probes.len());
                        }
                    }
                }
                true
            },
            None => {
                assert(self.probe_change_buffer@ + hits =~= self.probe_change_buffer@);
                false
            },
        }
    }

    fn commit_pending(&mut self)
        requires
            old(self).wf(),
        ensures
            final(self).wf(),
            final(self).env() == old(self).env(),
            final(self).probes == old(self).probes,
            final(self).extra_scopes == old(self).extra_scopes,
            final(self)@ == (ReaderState {
                probe_values: commit(old(self)@.probe_values, old(self)@.pending),
                pending: seq![],
                ..old(self)@
            }),
    {
        let mut k: usize = 0;
        let ghost pending = self.probe_change_buffer@;
        assert(pending.take(0) == Seq::<(usize, u64)>::empty());
        while k < self.probe_change_buffer.len()
            invariant
                k <= self.probe_change_buffer.len(),
                self.wf(),
                self.env() == old(self).env(),
                self.probes == old(self).probes,
                self.extra_scopes == old(self).extra_scopes,
                pending == old(self)@.pending,
                self@ == (ReaderState {
                    probe_values: commit(old(self)@.probe_values, pending.take(k as int)),
                    ..old(self)@
                }),
            decreases self.probe_change_buffer.len() - k,
        {
            let (slot, value) = self.probe_change_buffer[k];
            assert(pending.take(k + 1).drop_last() == pending.take(k as int));
            assert(pending.take(k + 1).last() == pending[k as int]);
            self.probe_values.set(slot, Some(value));
            k = k + 1;
        }
        assert(pending.take(k as int) == pending);
        self.probe_change_buffer.clear();
    }

    /// Reads up to the time step that follows the next rising clock edge, or
    /// to the end of the trace. Returns the changes of the cycle and whether
    /// the trace has ended.
    pub fn read_cycle_changes(&mut self, commands: &Vec<TraceCommand>) -> (r: (
        Vec<ValueChange>,
        bool,
    ))
        requires
            old(self).wf(),
            old(self).pos <= commands.len(),
            old(self).current_time < i64::MAX,
        ensures
            final(self).wf(),
            final(self).env() == old(self).env(),
            final(self).probes == old(self).probes,
            final(self).extra_scopes == old(self).extra_scopes,
            (final(self)@, r.0@, r.1) == read_cycle(old(self).env(), commands@, old(self)@),
            final(self).current_time == old(self).current_time + 1,
            old(self).pos <= final(self).pos <= commands.len(),
            !r.1 ==> old(self).pos < final(self).pos,
    {
        let mut changes: Vec<ValueChange> = Vec::new();
        let mut rising_edge_found = false;
        let mut eof_reached = true;
        let ghost env = self.env();
        let ghost start = ReadProgress { state: self@, changes: seq![], rising: false };
        while self.pos < commands.len()
            invariant_except_break
                eof_reached,
                read_on(env, commands@, start) == read_on(
                    env,
                    commands@,
                    ReadProgress { state: self@, changes: changes@, rising: rising_edge_found },
                ),
            invariant
                self.wf(),
                self.env() == env,
                env == old(self).env(),
                self.probes == old(self).probes,
                self.extra_scopes == old(self).extra_scopes,
                old(self).pos <= self.pos <= commands.len(),
                self.current_time == old(self).current_time,
            ensures
                self.wf(),
                self.env() == env,
                self.probes == old(self).probes,
                self.extra_scopes == old(self).extra_scopes,
                old(self).pos <= self.pos <= commands.len(),
                self.current_time == old(self).current_time,
                !eof_reached ==> old(self).pos < self.pos,
                read_on(env, commands@, start) == (
                    ReadProgress { state: self@, changes: changes@, rising: rising_edge_found },
                    eof_reached,
                ),
            decreases commands.len() - self.pos,
        {
            let ghost p = ReadProgress {
                state: self@,
                changes: changes@,
                rising: rising_edge_found,
            };
            match &commands[self.pos] {
                TraceCommand::Timestamp(_t) => {
                    if rising_edge_found {
                        self.pos = self.pos + 1;
                        eof_reached = false;
                        break ;
                    } else {
                        changes.append(&mut self.changes_buffer);
                        self.commit_pending();
                    }
                },
                TraceCommand::ChangeScalar(id, v) => {
                    if *id == self.clock {
                        if self.clock_val == LogicValue::V0 && *v == LogicValue::V1 {
                            rising_edge_found = true;
                        }
                        self.clock_val = *v;
                    } else if *id == self.reset {
                        self.reset_val = *v;
                    } else {
                        let unsigned_v: u64 = match v {
                            LogicValue::V1 => 1,
                            _ => 0,
                        };
                        let found = self.push_hits(*id, unsigned_v);
                        if !found {
                            assert(self.probe_change_buffer@ =~= p.state.pending);
                            self.changes_buffer.push(ValueChange { id: *id, value: *v });
                        }
                    }
                },
                TraceCommand::ChangeVector(id, bits) => {
                    let value = bitvector_to_unsigned(bits);
                    let _ = self.push_hits(*id, value);
                },
                TraceCommand::Other => {},
            }
            proof {
                let q = absorb(env, p, commands@[p.state.pos as int]);
                assert(self@ =~= q.state);
                assert(changes@ =~= q.changes);
            }
            self.pos = self.pos + 1;
        }
        self.current_time = self.current_time + 1;
        (changes, eof_reached)
    }
}

} // verus!
