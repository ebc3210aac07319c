//! Routing of the hybrid synthesizer: notes of bank 100 (CC#0 = 100) go to the PSG
//! synthesizer, all others to the SoundFont synthesizer; without a SoundFont the
//! General MIDI drums (channel 9) go to the PSG synthesizer, so that they are heard,
//! and other notes stay silent. A Note Off goes to the
//! synthesizer that started the note. The routing state decides; the engines (which
//! compute audio in floating point) carry out the commands it returns.

use vstd::prelude::*;

verus! {

/// The bank that selects the PSG synthesizer.
pub const PSG_BANK: u8 = 100;

/// Which synthesizer is sounding a channel/note.
#[derive(Clone, Copy, Debug, PartialEq, Eq, Structural)]
pub enum Route {
    Unrouted,
    Sf2,
    Psg,
}

/// An order for one of the two synthesizer engines.
#[derive(Clone, Copy, Debug, PartialEq, Eq, Structural)]
pub enum SynthCommand {
    /// Reset the SoundFont synthesizer.
    Sf2Reset,
    /// Reset the PSG synthesizer.
    PsgReset,
    /// A raw MIDI channel message for the SoundFont synthesizer.
    Sf2Message { channel: u8, command: u8, data1: u8, data2: u8 },
    Sf2NoteOn { channel: u8, note: u8, velocity: u8 },
    Sf2NoteOff { channel: u8, note: u8 },
    PsgNoteOn { channel: u8, note: u8, velocity: u8 },
    PsgNoteOff { channel: u8, note: u8 },
}

/// The routing state of the hybrid synthesizer.
pub struct Synth {
    has_sf2: bool,
    current_sf2_bank: Vec<u8>,
    current_sf2_program: Vec<u8>,
    note_routing: Vec<Route>,
}

/// The mathematical content of the routing state.
pub struct SynthModel {
    /// Whether a SoundFont synthesizer exists.
    pub has_sf2: bool,
    /// Bank last sent to the SoundFont synthesizer, per channel (16).
    pub bank: Seq<u8>,
    /// Program last sent to the SoundFont synthesizer, per channel (16).
    pub program: Seq<u8>,
    /// Route of each channel/note, at `channel * 128 + note` (2048).
    pub routing: Seq<Route>,
}

/// Index of a channel/note in the routing table (low nibble of the channel, low seven
/// bits of the note).
pub open spec fn route_index(channel: u8, note: u8) -> int {
    (channel & 0x0Fu8) * 128 + (note & 0x7Fu8)
}

/// The state with nothing routed and bank and program 0 everywhere.
pub open spec fn synth_initial(has_sf2: bool) -> SynthModel {
    SynthModel {
        has_sf2,
        bank: Seq::new(16, |i: int| 0u8),
        program: Seq::new(16, |i: int| 0u8),
        routing: Seq::new(2048, |i: int| Route::Unrouted),
    }
}

/// A well-shaped routing state.
pub open spec fn synth_wf(m: SynthModel) -> bool {
    m.bank.len() == 16 && m.program.len() == 16 && m.routing.len() == 2048
}

/// The commands of a reset: the SoundFont synthesizer (when there is one), then PSG.
pub open spec fn reset_commands(has_sf2: bool) -> Seq<SynthCommand> {
    if has_sf2 {
        seq![SynthCommand::Sf2Reset, SynthCommand::PsgReset]
    } else {
        seq![SynthCommand::PsgReset]
    }
}

/// Whether a note plays on the PSG synthesizer: bank 100, or a drum (channel 9)
/// when there is no SoundFont synthesizer.
pub open spec fn plays_on_psg(has_sf2: bool, ch: u8, bank: u8) -> bool {
    bank == PSG_BANK || (!has_sf2 && (ch & 0x0Fu8) == 9)
}

/// Starting a note: the new state and the commands to carry out. A note that
/// plays on neither synthesizer (no SoundFont, not a drum) is routed to the
/// SoundFont synthesizer and orders nothing.
pub open spec fn spec_note_on(m: SynthModel, ch: u8, note: u8, vel: u8, bank: u8, program: u8) -> (SynthModel, Seq<SynthCommand>) {
    let c = (ch & 0x0Fu8) as int;
    let k = route_index(ch, note);
    if plays_on_psg(m.has_sf2, ch, bank) {
        (
            SynthModel { routing: m.routing.update(k, Route::Psg), ..m },
            seq![SynthCommand::PsgNoteOn { channel: ch, note, velocity: vel }],
        )
    } else if m.has_sf2 {
        let bank_cmds = if m.bank[c] != bank {
            seq![SynthCommand::Sf2Message { channel: ch, command: 0xB0, data1: 0, data2: bank }]
        } else {
            Seq::empty()
        };
        let prog_cmds = if m.program[c] != program {
            seq![SynthCommand::Sf2Message { channel: ch, command: 0xC0, data1: program, data2: 0 }]
        } else {
            Seq::empty()
        };
        (
            SynthModel {
                has_sf2: m.has_sf2,
                bank: m.bank.update(c, bank),
                program: m.program.update(c, program),
                routing: m.routing.update(k, Route::Sf2),
            },
            bank_cmds + prog_cmds + seq![SynthCommand::Sf2NoteOn { channel: ch, note, velocity: vel }],
        )
    } else {
        (SynthModel { routing: m.routing.update(k, Route::Sf2), ..m }, Seq::empty())
    }
}

/// Whether a control event is set again on the SoundFont synthesizer after a
/// seek: a Control Change other than Bank Select, or a Pitch Bend. Bank and
/// program travel with each note, so they are sent with the notes.
pub open spec fn restores_control(command: u8, data1: u8) -> bool {
    (command == 0xB0 && data1 != 0) || command == 0xE0
}

/// The commands that set a control value again.
pub open spec fn control_commands(m: SynthModel, ch: u8, command: u8, data1: u8, data2: u8) -> Seq<SynthCommand> {
    if m.has_sf2 && restores_control(command, data1) {
        seq![SynthCommand::Sf2Message { channel: ch, command, data1, data2 }]
    } else {
        Seq::empty()
    }
}

/// Releasing a note: the new state and the commands to carry out.
pub open spec fn spec_note_off(m: SynthModel, ch: u8, note: u8) -> (SynthModel, Seq<SynthCommand>) {
    let k = route_index(ch, note);
    let cmds = match m.routing[k] {
        Route::Psg => seq![SynthCommand::PsgNoteOff { channel: ch, note }],
        Route::Sf2 => if m.has_sf2 {
            seq![SynthCommand::Sf2NoteOff { channel: ch, note }]
        } else {
            Seq::empty()
        },
        Route::Unrouted => Seq::empty(),
    };
    (SynthModel { routing: m.routing.update(k, Route::Unrouted), ..m }, cmds)
}

pub proof fn lemma_route_index_bounds(ch: u8, note: u8)
    ensures
        0 <= route_index(ch, note) < 2048,
        (ch & 0x0Fu8) < 16,
{
    assert((ch & 0x0Fu8) < 16) by (bit_vector);
    assert((note & 0x7Fu8) < 128) by (bit_vector);
}

impl View for Synth {
    type V = SynthModel;

    closed spec fn view(&self) -> SynthModel {
        SynthModel {
            has_sf2: self.has_sf2,
            bank: self.current_sf2_bank@,
            program: self.current_sf2_program@,
            routing: self.note_routing@,
        }
    }
}

impl Synth {
    /// The routing state keeps its shape: 16 banks, 16 programs, 2048 routes.
    #[verifier::type_invariant]
    pub open spec fn wf(&self) -> bool {
        synth_wf(self@)
    }

    /// A routing state with nothing routed; `has_sf2` tells whether a SoundFont
    /// synthesizer exists.
    pub fn new(has_sf2: bool) -> (r: Self)
        ensures
            r@ == synth_initial(has_sf2),
    {
        let r = Synth {
            has_sf2,
            current_sf2_bank: vec![0u8; 16],
            current_sf2_program: vec![0u8; 16],
            note_routing: vec![Route::Unrouted; 2048],
        };
        assert(r@.bank =~= synth_initial(has_sf2).bank);
        assert(r@.program =~= synth_initial(has_sf2).program);
        assert(r@.routing =~= synth_initial(has_sf2).routing);
        r
    }

    /// Whether a SoundFont synthesizer exists.
    pub fn has_sf2(&self) -> (r: bool)
        ensures
            r == self@.has_sf2,
    {
        self.has_sf2
    }

    /// Forgets every route and sets bank and program back to 0; returns the reset
    /// commands for the engines.
    pub fn reset(&mut self) -> (r: Vec<SynthCommand>)
        ensures
            final(self)@ == synth_initial(old(self)@.has_sf2),
            r@ == reset_commands(old(self)@.has_sf2),
    {
        proof {
            use_type_invariant(&*self);
        }
        self.current_sf2_bank = vec![0u8; 16];
        self.current_sf2_program = vec![0u8; 16];
        self.note_routing = vec![Route::Unrouted; 2048];
        assert(self@.bank =~= synth_initial(self.has_sf2).bank);
        assert(self@.program =~= synth_initial(self.has_sf2).program);
        assert(self@.routing =~= synth_initial(self.has_sf2).routing);
        let mut cmds = Vec::new();
        if self.has_sf2 {
            cmds.push(SynthCommand::Sf2Reset);
        }
        cmds.push(SynthCommand::PsgReset);
        assert(cmds@ =~= reset_commands(self.has_sf2));
        cmds
    }

    /// Starts a note: on the PSG synthesizer for bank 100, and for drums (channel
    /// 9) when there is no SoundFont synthesizer; else on the SoundFont synthesizer
    /// (sending Bank Select and Program Change first when they changed), which is
    /// silent when there is none.
    pub fn note_on(&mut self, ch: u8, note: u8, vel: u8, bank: u8, program: u8) -> (r: Vec<SynthCommand>)
        ensures
            (final(self)@, r@) == spec_note_on(old(self)@, ch, note, vel, bank, program),
    {
        proof {
            use_type_invariant(&*self);
            lemma_route_index_bounds(ch, note);
        }
        let ch_idx = (ch & 0x0F) as usize;
        let note_idx = (note & 0x7F) as usize;
        let k = ch_idx * 128 + note_idx;
        let mut cmds: Vec<SynthCommand> = Vec::new();
        if bank == PSG_BANK || (!self.has_sf2 && ch_idx == 9) {
            cmds.push(SynthCommand::PsgNoteOn { channel: ch, note, velocity: vel });
            self.note_routing[k] = Route::Psg;
            assert(cmds@ =~= seq![SynthCommand::PsgNoteOn { channel: ch, note, velocity: vel }]);
        } else {
            if self.has_sf2 {
                if self.current_sf2_bank[ch_idx] != bank {
                    cmds.push(SynthCommand::Sf2Message { channel: ch, command: 0xB0, data1: 0, data2: bank });
                    self.current_sf2_bank[ch_idx] = bank;
                }
                if self.current_sf2_program[ch_idx] != program {
                    cmds.push(SynthCommand::Sf2Message { channel: ch, command: 0xC0, data1: program, data2: 0 });
                    self.current_sf2_program[ch_idx] = program;
                }
                cmds.push(SynthCommand::Sf2NoteOn { channel: ch, note, velocity: vel });
                proof {
                    let m = old(self)@;
                    let c = ch_idx as int;
                    assert(self@.bank =~= m.bank.update(c, bank));
                    assert(self@.program =~= m.program.update(c, program));
                    assert(cmds@ =~= spec_note_on(m, ch, note, vel, bank, program).1);
                }
            }
            self.note_routing[k] = Route::Sf2;
        }
        cmds
    }

    /// The commands that set a control value again (after a seek); the routing
    /// state does not change.
    pub fn control(&self, ch: u8, command: u8, data1: u8, data2: u8) -> (r: Vec<SynthCommand>)
        ensures
            r@ == control_commands(self@, ch, command, data1, data2),
    {
        let mut cmds: Vec<SynthCommand> = Vec::new();
        if self.has_sf2 && ((command == 0xB0 && data1 != 0) || command == 0xE0) {
            cmds.push(SynthCommand::Sf2Message { channel: ch, command, data1, data2 });
        }
        assert(cmds@ =~= control_commands(self@, ch, command, data1, data2));
        cmds
    }

    /// Releases a note on the synthesizer that started it and forgets its route.
    pub fn note_off(&mut self, ch: u8, note: u8) -> (r: Vec<SynthCommand>)
        ensures
            (final(self)@, r@) == spec_note_off(old(self)@, ch, note),
    {
        proof {
            use_type_invariant(&*self);
            lemma_route_index_bounds(ch, note);
        }
        let k = ((ch & 0x0F) as usize) * 128 + (note & 0x7F) as usize;
        let mut cmds: Vec<SynthCommand> = Vec::new();
        match self.note_routing[k] {
            Route::Psg => {
                cmds.push(SynthCommand::PsgNoteOff { channel: ch, note });
            },
            Route::Sf2 => {
                if self.has_sf2 {
                    cmds.push(SynthCommand::Sf2NoteOff { channel: ch, note });
                }
            },
            Route::Unrouted => {},
        }
        self.note_routing[k] = Route::Unrouted;
        assert(cmds@ =~= spec_note_off(old(self)@, ch, note).1);
        cmds
    }
}

// ─────────────────────────────────────────────
// Laws
// ─────────────────────────────────────────────

/// A note is released on the synthesizer that started it: PSG for bank 100 and, when
/// there is no SoundFont synthesizer, for drums; the SoundFont synthesizer
/// otherwise (nothing when there is none).
pub proof fn lemma_note_off_follows_note_on(m: SynthModel, ch: u8, note: u8, vel: u8, bank: u8, program: u8)
    requires
        synth_wf(m),
    ensures
        ({
            let after_on = spec_note_on(m, ch, note, vel, bank, program).0;
            let cmds = spec_note_off(after_on, ch, note).1;
            &&& plays_on_psg(m.has_sf2, ch, bank) ==> cmds == seq![SynthCommand::PsgNoteOff { channel: ch, note }]
            &&& !plays_on_psg(m.has_sf2, ch, bank) && m.has_sf2 ==> cmds == seq![SynthCommand::Sf2NoteOff { channel: ch, note }]
            &&& !plays_on_psg(m.has_sf2, ch, bank) && !m.has_sf2 ==> cmds == Seq::<SynthCommand>::empty()
        }),
{
    lemma_route_index_bounds(ch, note);
}

/// Releasing a note twice: the second release orders nothing.
pub proof fn lemma_note_off_twice(m: SynthModel, ch: u8, note: u8)
    requires
        synth_wf(m),
    ensures
        spec_note_off(spec_note_off(m, ch, note).0, ch, note).1 == Seq::<SynthCommand>::empty(),
{
    lemma_route_index_bounds(ch, note);
}

/// After a reset no note is routed: every release orders nothing.
pub proof fn lemma_reset_forgets_notes(has_sf2: bool, ch: u8, note: u8)
    ensures
        spec_note_off(synth_initial(has_sf2), ch, note).1 == Seq::<SynthCommand>::empty(),
{
    lemma_route_index_bounds(ch, note);
}

/// Bank Select and Program Change are sent only when they change: a second note
/// with the same channel, bank and program only orders its Note On.
pub proof fn lemma_bank_program_sent_once(m: SynthModel, ch: u8, n1: u8, v1: u8, n2: u8, v2: u8, bank: u8, program: u8)
    requires
        synth_wf(m),
        m.has_sf2,
        bank != PSG_BANK,
    ensures
        spec_note_on(spec_note_on(m, ch, n1, v1, bank, program).0, ch, n2, v2, bank, program).1
            == seq![SynthCommand::Sf2NoteOn { channel: ch, note: n2, velocity: v2 }],
{
    lemma_route_index_bounds(ch, n1);
    let s1 = spec_note_on(m, ch, n1, v1, bank, program).0;
    let c = (ch & 0x0Fu8) as int;
    assert(s1.bank[c] == bank);
    assert(s1.program[c] == program);
    assert(Seq::<SynthCommand>::empty() + Seq::<SynthCommand>::empty() + seq![SynthCommand::Sf2NoteOn { channel: ch, note: n2, velocity: v2 }]
        =~= seq![SynthCommand::Sf2NoteOn { channel: ch, note: n2, velocity: v2 }]);
}

/// With a SoundFont and a bank other than 100, starting a note sends Bank Select
/// exactly when the channel's last bank differs from the note's, and Program
/// Change exactly when the channel's last program differs from the note's
/// (whatever the bank), Bank Select first, then the Note On last; afterwards the
/// channel's bank and program are the note's.
pub proof fn lemma_note_on_sends_what_changed(m: SynthModel, ch: u8, note: u8, vel: u8, bank: u8, program: u8)
    requires
        synth_wf(m),
        m.has_sf2,
        bank != PSG_BANK,
    ensures
        ({
            let (m2, cmds) = spec_note_on(m, ch, note, vel, bank, program);
            let c = (ch & 0x0Fu8) as int;
            let bank_msg = SynthCommand::Sf2Message { channel: ch, command: 0xB0, data1: 0, data2: bank };
            let prog_msg = SynthCommand::Sf2Message { channel: ch, command: 0xC0, data1: program, data2: 0 };
            &&& cmds.contains(prog_msg) <==> m.program[c] != program
            &&& cmds.contains(bank_msg) <==> m.bank[c] != bank
            &&& cmds.len() == 1 + (if m.bank[c] != bank { 1int } else { 0int }) + (if m.program[c] != program { 1int } else { 0int })
            &&& cmds.last() == SynthCommand::Sf2NoteOn { channel: ch, note, velocity: vel }
            &&& m.bank[c] != bank ==> cmds[0] == bank_msg
            &&& m2.bank[c] == bank
            &&& m2.program[c] == program
            &&& forall|d: int| 0 <= d < 16 && d != c ==> m2.bank[d] == m.bank[d] && m2.program[d] == m.program[d]
        }),
{
    lemma_route_index_bounds(ch, note);
    let (m2, cmds) = spec_note_on(m, ch, note, vel, bank, program);
    let c = (ch & 0x0Fu8) as int;
    let bank_msg = SynthCommand::Sf2Message { channel: ch, command: 0xB0, data1: 0, data2: bank };
    let prog_msg = SynthCommand::Sf2Message { channel: ch, command: 0xC0, data1: program, data2: 0 };
    let on = SynthCommand::Sf2NoteOn { channel: ch, note, velocity: vel };
    let bc = if m.bank[c] != bank { seq![bank_msg] } else { Seq::<SynthCommand>::empty() };
    let pc = if m.program[c] != program { seq![prog_msg] } else { Seq::<SynthCommand>::empty() };
    assert(cmds == bc + pc + seq![on]);
    if m.program[c] != program {
        assert(cmds[bc.len() as int] == prog_msg);
    } else {
        assert forall|i: int| 0 <= i < cmds.len() implies cmds[i] != prog_msg by {
            if i < bc.len() {
                assert(cmds[i] == bank_msg);
            } else {
                assert(cmds[i] == on);
            }
        }
    }
    if m.bank[c] != bank {
        assert(cmds[0] == bank_msg);
    } else {
        assert forall|i: int| 0 <= i < cmds.len() implies cmds[i] != bank_msg by {
            if i < pc.len() {
                assert(cmds[i] == prog_msg);
            } else {
                assert(cmds[i] == on);
            }
        }
    }
}

} // verus!
