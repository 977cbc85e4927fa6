//! Amplifier pipelines: one machine per stage, each consuming the previous
//! stage's last output, in a straight line or in a feedback ring, and the
//! search for the best phase-setting permutation.

use vstd::prelude::*;
use permutator::{Combination, Permutation};
use crate::computer::{
    machine_faults_to, machine_halts_to, machine_pauses_to, run_n, spec_begun, spec_loaded,
    Computer, Fault, MachineView, ResumeMode, State, StepOut,
};

verus! {

/// How the stages of a chain are wired: one pass left to right, or a ring
/// fed back into the first stage until every machine stops.
#[derive(Copy, Clone, Debug, PartialEq, Eq, Structural)]
pub enum AmplifierChainMode {
    Linear,
    Feedback,
}

/// Why an amplifier pass failed: the machine faulted, or it ended without
/// ever producing an output value.
#[derive(Copy, Clone, Debug, PartialEq, Eq, Structural)]
pub enum AmplifierError {
    Machine(Fault),
    NoOutput,
}

/// One pipeline stage: a machine plus the scalar phase setting that is fed
/// as its very first input, before any other.
#[derive(Debug)]
pub struct Amplifier {
    pub setting: i64,
    pub computer: Computer,
    pub mode: ResumeMode,
}

/// The configuration an amplifier pass starts from: the phase setting is
/// queued first if the machine has never run, then the input value.
pub open spec fn amp_feed(pre: MachineView, setting: i64, input: i64) -> MachineView {
    let fed = if pre.state == State::Started {
        pre.input.push(setting).push(input)
    } else {
        pre.input.push(input)
    };
    spec_begun(MachineView { input: fed, ..pre })
}

/// One successful amplifier pass: from machine `pre` with the given phase
/// setting, on `input`, the machine ends at `post` and `output` is the last
/// value of its log.
pub open spec fn amp_runs(
    pre: MachineView,
    setting: i64,
    input: i64,
    post: MachineView,
    output: i64,
) -> bool {
    let start = amp_feed(pre, setting, input);
    &&& (machine_halts_to(start, post) || machine_pauses_to(start, post))
    &&& post.output.len() > 0
    &&& output == post.output.last()
}

/// One failed amplifier pass, by error kind.
pub open spec fn amp_errs(
    pre: MachineView,
    setting: i64,
    input: i64,
    post: MachineView,
    e: AmplifierError,
) -> bool {
    let start = amp_feed(pre, setting, input);
    match e {
        AmplifierError::NoOutput => {
            &&& (machine_halts_to(start, post) || machine_pauses_to(start, post))
            &&& post.output.len() == 0
        },
        AmplifierError::Machine(f) => {
            if f == Fault::StepLimit {
                run_n(start, u64::MAX as nat) == (post, StepOut::Continue)
            } else {
                machine_faults_to(start, post, f)
            }
        },
    }
}

impl Amplifier {
    /// A fresh stage over its own copy of the program, with the given
    /// phase setting and resume policy.
    pub fn new(setting: i64, program: Vec<i64>, mode: ResumeMode) -> (r: Amplifier)
        requires
            program@.len() <= i64::MAX,
        ensures
            r.setting == setting,
            r.mode == mode,
            r.computer@ == spec_loaded(program@, Seq::empty(), mode is Enable),
    {
        let mut computer = Computer::new(program);
        computer.set_resume_mode(mode);
        Amplifier { setting, computer, mode }
    }

    /// Feeds the phase setting (on the first pass only) and the input
    /// value, runs the machine, and hands back the last output value.
    pub fn run(&mut self, input: i64) -> (r: Result<i64, AmplifierError>)
        requires
            old(self).computer@.state != State::Stopped,
        ensures
            final(self).setting == old(self).setting,
            final(self).mode == old(self).mode,
            match r {
                Ok(v) => amp_runs(
                    old(self).computer@,
                    old(self).setting,
                    input,
                    final(self).computer@,
                    v,
                ),
                Err(e) => amp_errs(
                    old(self).computer@,
                    old(self).setting,
                    input,
                    final(self).computer@,
                    e,
                ),
            },
    {
        if !self.computer.is_setup() {
            self.computer.add_input(self.setting);
        }
        self.computer.add_input(input);
        match self.computer.run() {
            Ok((_, buffer)) => {
                if buffer.len() == 0 {
                    Err(AmplifierError::NoOutput)
                } else {
                    Ok(buffer[buffer.len() - 1])
                }
            },
            Err(f) => Err(AmplifierError::Machine(f)),
        }
    }
}

/// The phase settings of the stages, in order.
pub open spec fn chain_settings(c: Seq<Amplifier>) -> Seq<i64> {
    c.map_values(|a: Amplifier| a.setting)
}

/// The machine configurations of the stages, in order.
pub open spec fn chain_machines(c: Seq<Amplifier>) -> Seq<MachineView> {
    c.map_values(|a: Amplifier| a.computer@)
}

/// The stage after `idx` in ring order.
pub open spec fn ring_next(idx: int, len: int) -> int {
    if idx + 1 >= len {
        0
    } else {
        idx + 1
    }
}

/// The feedback ring from stage `idx` with value `v` in hand: stages run
/// one after another, each consuming the previous value and producing the
/// next, until the stage about to run has stopped; `vf` is the value in
/// hand at that point and `msf` the machines then.  `fuel` bounds the
/// number of passes.
pub open spec fn spec_ring(
    settings: Seq<i64>,
    ms: Seq<MachineView>,
    idx: int,
    v: i64,
    msf: Seq<MachineView>,
    vf: i64,
    fuel: nat,
) -> bool
    decreases fuel,
{
    if !(0 <= idx < ms.len()) || ms.len() != settings.len() {
        false
    } else if ms[idx].state == State::Stopped {
        msf == ms && vf == v
    } else if fuel == 0 {
        false
    } else {
        exists|m2: MachineView, v2: i64|
            #[trigger] amp_runs(ms[idx], settings[idx], v, m2, v2) && spec_ring(
                settings,
                ms.update(idx, m2),
                ring_next(idx, ms.len() as int),
                v2,
                msf,
                vf,
                (fuel - 1) as nat,
            )
    }
}

/// Some stage of a single left-to-right pass failed: the stages before
/// `j` ran, threading the values `vs` from `input`, stage `j` failed with
/// `e`, and the stages after `j` were never touched.
pub open spec fn linear_failure(
    pre: Seq<Amplifier>,
    post: Seq<Amplifier>,
    input: i64,
    e: AmplifierError,
) -> bool {
    exists|j: int, vs: Seq<i64>|
        {
            &&& 0 <= j < pre.len()
            &&& vs.len() == j + 1
            &&& vs[0] == input
            &&& (forall|i: int|
                0 <= i < j ==> #[trigger] amp_runs(
                    pre[i].computer@,
                    pre[i].setting,
                    vs[i],
                    post[i].computer@,
                    vs[i + 1],
                ))
            &&& #[trigger] amp_errs(pre[j].computer@, pre[j].setting, vs[j], post[j].computer@, e)
            &&& (forall|i: int| j < i < pre.len() ==> #[trigger] post[i] == pre[i])
        }
}

/// The ring has run exactly `fuel` passes from stage `idx` with value `v`
/// in hand, each pass a successful run of a stage that had not stopped,
/// reaching stages `msf` about to run stage `idxf` with value `vf`.
pub open spec fn spec_ring_live(
    settings: Seq<i64>,
    ms: Seq<MachineView>,
    idx: int,
    v: i64,
    msf: Seq<MachineView>,
    idxf: int,
    vf: i64,
    fuel: nat,
) -> bool
    decreases fuel,
{
    if fuel == 0 {
        ms == msf && idx == idxf && v == vf
    } else {
        0 <= idx < ms.len() && ms.len() == settings.len() && ms[idx].state != State::Stopped
            && exists|m2: MachineView, v2: i64|
            #[trigger] amp_runs(ms[idx], settings[idx], v, m2, v2) && spec_ring_live(
                settings,
                ms.update(idx, m2),
                ring_next(idx, ms.len() as int),
                v2,
                msf,
                idxf,
                vf,
                (fuel - 1) as nat,
            )
    }
}

/// A reachable ring state extended by one more successful pass is still
/// reachable.
proof fn lemma_ring_live_snoc(
    settings: Seq<i64>,
    ms: Seq<MachineView>,
    idx: int,
    v: i64,
    msf: Seq<MachineView>,
    idxf: int,
    vf: i64,
    fuel: nat,
    m2: MachineView,
    v2: i64,
)
    requires
        spec_ring_live(settings, ms, idx, v, msf, idxf, vf, fuel),
        0 <= idxf < msf.len(),
        msf.len() == settings.len(),
        msf[idxf].state != State::Stopped,
        amp_runs(msf[idxf], settings[idxf], vf, m2, v2),
    ensures
        spec_ring_live(
            settings,
            ms,
            idx,
            v,
            msf.update(idxf, m2),
            ring_next(idxf, msf.len() as int),
            v2,
            (fuel + 1) as nat,
        ),
    decreases fuel,
{
    if fuel == 0 {
        assert(spec_ring_live(
            settings,
            msf.update(idxf, m2),
            ring_next(idxf, msf.len() as int),
            v2,
            msf.update(idxf, m2),
            ring_next(idxf, msf.len() as int),
            v2,
            0,
        ));
    } else {
        let (mm, vv) = choose|mm: MachineView, vv: i64|
            #[trigger] amp_runs(ms[idx], settings[idx], v, mm, vv) && spec_ring_live(
                settings,
                ms.update(idx, mm),
                ring_next(idx, ms.len() as int),
                vv,
                msf,
                idxf,
                vf,
                (fuel - 1) as nat,
            );
        lemma_ring_live_snoc(
            settings,
            ms.update(idx, mm),
            ring_next(idx, ms.len() as int),
            vv,
            msf,
            idxf,
            vf,
            (fuel - 1) as nat,
            m2,
            v2,
        );
    }
}

/// Some stage of a ring grown from the fresh stages `pre` on `input`
/// failed with `e`: the ring reached a live stage `im` holding `vm`, and
/// that stage's pass failed, ending its machine at `postm`; or, for the
/// step-budget report, the ring was simply still live.
pub open spec fn ring_failure(
    pre: Seq<Amplifier>,
    input: i64,
    e: AmplifierError,
) -> bool {
    ||| exists|fuel: nat, msm: Seq<MachineView>, im: int, vm: i64, postm: MachineView|
        {
            &&& #[trigger] spec_ring_live(
                chain_settings(pre),
                chain_machines(pre),
                0,
                input,
                msm,
                im,
                vm,
                fuel,
            )
            &&& 0 <= im < msm.len()
            &&& msm[im].state != State::Stopped
            &&& #[trigger] amp_errs(msm[im], chain_settings(pre)[im], vm, postm, e)
        }
    ||| (e == AmplifierError::Machine(Fault::StepLimit) && exists|msm: Seq<MachineView>, im: int, vm: i64|
        {
            &&& #[trigger] spec_ring_live(
                chain_settings(pre),
                chain_machines(pre),
                0,
                input,
                msm,
                im,
                vm,
                u64::MAX as nat,
            )
            &&& 0 <= im < msm.len()
            &&& msm[im].state != State::Stopped
        })
}

/// A complete feedback-ring run: from the fresh stages `pre` on `input`,
/// the ring threads values stage to stage until the stage about to run has
/// stopped, ending with stages `post` and final value `v`.
pub open spec fn ring_result(pre: Seq<Amplifier>, input: i64, post: Seq<Amplifier>, v: i64) -> bool {
    exists|fuel: nat|
        #[trigger] spec_ring(
            chain_settings(pre),
            chain_machines(pre),
            0,
            input,
            chain_machines(post),
            v,
            fuel,
        )
}

/// Several stages wired in sequence, each owning its machine.
#[derive(Debug)]
pub struct AmplifierChain {
    pub chain: Vec<Amplifier>,
    pub mode: AmplifierChainMode,
}

impl AmplifierChain {
    /// Five fresh stages over copies of one program, with the given phase
    /// settings; feedback mode enables the stages' resume policy.
    pub fn new(settings: Vec<i64>, program: Vec<i64>, mode: AmplifierChainMode) -> (r:
        AmplifierChain)
        requires
            settings@.len() >= 5,
            program@.len() <= i64::MAX,
        ensures
            r.mode == mode,
            r.chain@.len() == 5,
            forall|i: int|
                0 <= i < 5 ==> {
                    &&& (#[trigger] r.chain@[i]).setting == settings@[i]
                    &&& r.chain@[i].computer@ == spec_loaded(
                        program@,
                        Seq::empty(),
                        mode is Feedback,
                    )
                },
    {
        let resume_mode = match mode {
            AmplifierChainMode::Linear => ResumeMode::Disable,
            AmplifierChainMode::Feedback => ResumeMode::Enable,
        };
        let amplifier_a = Amplifier::new(settings[0], program.clone(), resume_mode);
        let amplifier_b = Amplifier::new(settings[1], program.clone(), resume_mode);
        let amplifier_c = Amplifier::new(settings[2], program.clone(), resume_mode);
        let amplifier_d = Amplifier::new(settings[3], program.clone(), resume_mode);
        let amplifier_e = Amplifier::new(settings[4], program.clone(), resume_mode);
        AmplifierChain {
            chain: vec![amplifier_a, amplifier_b, amplifier_c, amplifier_d, amplifier_e],
            mode,
        }
    }

    /// One pass over the stages in order: each stage consumes the previous
    /// stage's output, starting from `input`; the last output is the
    /// result.  The first failing stage aborts the pass, leaving the later
    /// stages untouched.
    pub fn run_linear(&mut self, input: i64) -> (r: Result<i64, AmplifierError>)
        requires
            forall|i: int|
                0 <= i < old(self).chain@.len() ==> (#[trigger] old(
                    self,
                ).chain@[i]).computer@.state != State::Stopped,
        ensures
            final(self).mode == old(self).mode,
            final(self).chain@.len() == old(self).chain@.len(),
            forall|i: int|
                0 <= i < old(self).chain@.len() ==> (#[trigger] final(self).chain@[i]).setting
                    == old(self).chain@[i].setting && final(self).chain@[i].mode == old(
                    self,
                ).chain@[i].mode,
            match r {
                Ok(v) => exists|vs: Seq<i64>|
                    {
                        &&& vs.len() == old(self).chain@.len() + 1
                        &&& vs[0] == input
                        &&& v == vs.last()
                        &&& forall|i: int|
                            0 <= i < old(self).chain@.len() ==> #[trigger] amp_runs(
                                old(self).chain@[i].computer@,
                                old(self).chain@[i].setting,
                                vs[i],
                                final(self).chain@[i].computer@,
                                vs[i + 1],
                            )
                    },
                Err(e) => linear_failure(old(self).chain@, final(self).chain@, input, e),
            },
    {
        let mut output = input;
        let ghost mut vs: Seq<i64> = seq![input];
        let mut idx: usize = 0;
        let n = self.chain.len();
        while idx < n
            invariant
                n == self.chain@.len(),
                self.chain@.len() == old(self).chain@.len(),
                self.mode == old(self).mode,
                idx <= n,
                vs.len() == idx + 1,
                vs[0] == input,
                output == vs.last(),
                forall|i: int|
                    0 <= i < old(self).chain@.len() ==> (#[trigger] old(
                        self,
                    ).chain@[i]).computer@.state != State::Stopped,
                forall|i: int|
                    idx <= i < self.chain@.len() ==> #[trigger] self.chain@[i] == old(
                        self,
                    ).chain@[i],
                forall|i: int|
                    0 <= i < self.chain@.len() ==> (#[trigger] self.chain@[i]).setting == old(
                        self,
                    ).chain@[i].setting && self.chain@[i].mode == old(self).chain@[i].mode,
                forall|i: int|
                    0 <= i < idx ==> #[trigger] amp_runs(
                        old(self).chain@[i].computer@,
                        old(self).chain@[i].setting,
                        vs[i],
                        self.chain@[i].computer@,
                        vs[i + 1],
                    ),
            decreases n - idx,
        {
            let ghost pre_chain = self.chain@;
            let amplifier = &mut self.chain[idx];
            let step = amplifier.run(output);
            match step {
                Ok(v) => {
                    proof {
                        vs = vs.push(v);
                    }
                    output = v;
                },
                Err(e) => {
                    proof {
                        assert(amp_errs(
                            old(self).chain@[idx as int].computer@,
                            old(self).chain@[idx as int].setting,
                            vs[idx as int],
                            self.chain@[idx as int].computer@,
                            e,
                        ));
                    }
                    return Err(e);
                },
            }
            idx = idx + 1;
        }
        Ok(output)
    }

    /// The feedback ring: stages run round and round, the last value in
    /// hand feeding the next stage, until the stage about to run has
    /// stopped; the value in hand then is the result.
    pub fn run_feedback(&mut self, input: i64) -> (r: Result<i64, AmplifierError>)
        requires
            old(self).chain@.len() >= 1,
        ensures
            final(self).mode == old(self).mode,
            final(self).chain@.len() == old(self).chain@.len(),
            match r {
                Ok(v) => ring_result(old(self).chain@, input, final(self).chain@, v),
                Err(e) => ring_failure(old(self).chain@, input, e),
            },
    {
        let ghost settings0 = chain_settings(old(self).chain@);
        let ghost ms0 = chain_machines(old(self).chain@);
        let mut output = input;
        let mut amplifier_index: usize = 0;
        let mut fuel: u64 = u64::MAX;
        let ghost mut steps: nat = 0;
        let n = self.chain.len();
        loop
            invariant
                n == self.chain@.len(),
                self.chain@.len() == old(self).chain@.len(),
                self.chain@.len() >= 1,
                self.mode == old(self).mode,
                amplifier_index < self.chain@.len(),
                settings0 == chain_settings(old(self).chain@),
                ms0 == chain_machines(old(self).chain@),
                chain_settings(self.chain@) == settings0,
                steps + fuel == u64::MAX,
                spec_ring_live(
                    settings0,
                    ms0,
                    0,
                    input,
                    chain_machines(self.chain@),
                    amplifier_index as int,
                    output,
                    steps,
                ),
                forall|msf: Seq<MachineView>, vf: i64, f: nat|
                    #[trigger] spec_ring(
                        settings0,
                        chain_machines(self.chain@),
                        amplifier_index as int,
                        output,
                        msf,
                        vf,
                        f,
                    ) ==> exists|f2: nat|
                        #[trigger] spec_ring(settings0, ms0, 0, input, msf, vf, f2),
            decreases fuel,
        {
            let ghost pre_chain = self.chain@;
            let stopped = match self.chain[amplifier_index].computer.state() {
                State::Stopped => true,
                _ => false,
            };
            if stopped {
                proof {
                    assert(spec_ring(
                        settings0,
                        chain_machines(self.chain@),
                        amplifier_index as int,
                        output,
                        chain_machines(self.chain@),
                        output,
                        0,
                    ));
                    assert(exists|f2: nat|
                        #[trigger] spec_ring(
                            settings0,
                            ms0,
                            0,
                            input,
                            chain_machines(self.chain@),
                            output,
                            f2,
                        ));
                    assert(ring_result(old(self).chain@, input, self.chain@, output));
                }
                return Ok(output);
            }
            if fuel == 0 {
                proof {
                    assert(ring_failure(
                        old(self).chain@,
                        input,
                        AmplifierError::Machine(Fault::StepLimit),
                    )) by {
                        let msm = chain_machines(self.chain@);
                        assert(steps == u64::MAX);
                        assert(spec_ring_live(
                            settings0,
                            ms0,
                            0,
                            input,
                            msm,
                            amplifier_index as int,
                            output,
                            u64::MAX as nat,
                        ) && 0 <= amplifier_index < msm.len() && msm[amplifier_index as int].state
                            != State::Stopped);
                    }
                }
                return Err(AmplifierError::Machine(Fault::StepLimit));
            }
            fuel = fuel - 1;
            let idx = amplifier_index;
            let step = self.chain[idx].run(output);
            let v = match step {
                Ok(v) => v,
                Err(e) => {
                    proof {
                        let msm = chain_machines(pre_chain);
                        let postm = self.chain@[idx as int].computer@;
                        assert(amp_errs(msm[idx as int], settings0[idx as int], output, postm, e));
                        assert(ring_failure(old(self).chain@, input, e));
                    }
                    return Err(e);
                },
            };
            proof {
                assert(chain_machines(self.chain@) =~= chain_machines(pre_chain).update(
                    idx as int,
                    self.chain@[idx as int].computer@,
                ));
                assert(chain_settings(self.chain@) =~= settings0);
                assert forall|msf: Seq<MachineView>, vf: i64, f: nat|
                    #[trigger] spec_ring(
                        settings0,
                        chain_machines(self.chain@),
                        ring_next(idx as int, self.chain@.len() as int),
                        v,
                        msf,
                        vf,
                        f,
                    ) implies exists|f2: nat|
                    #[trigger] spec_ring(settings0, ms0, 0, input, msf, vf, f2) by {
                    assert(amp_runs(
                        chain_machines(pre_chain)[idx as int],
                        settings0[idx as int],
                        output,
                        self.chain@[idx as int].computer@,
                        v,
                    ));
                    assert(spec_ring(
                        settings0,
                        chain_machines(pre_chain),
                        idx as int,
                        output,
                        msf,
                        vf,
                        f + 1,
                    ));
                }
                lemma_ring_live_snoc(
                    settings0,
                    ms0,
                    0,
                    input,
                    chain_machines(pre_chain),
                    idx as int,
                    output,
                    steps,
                    self.chain@[idx as int].computer@,
                    v,
                );
                steps = steps + 1;
            }
            output = v;
            amplifier_index = amplifier_index + 1;
            if amplifier_index > self.chain.len() - 1 {
                amplifier_index = 0;
            }
            proof {
                assert(amplifier_index as int == ring_next(
                    idx as int,
                    self.chain@.len() as int,
                ));
            }
        }
    }

    /// Runs the chain once, in the wiring of its mode.
    pub fn run(&mut self, input: i64) -> (r: Result<i64, AmplifierError>)
        requires
            old(self).chain@.len() >= 1,
            forall|i: int|
                0 <= i < old(self).chain@.len() ==> (#[trigger] old(
                    self,
                ).chain@[i]).computer@.state != State::Stopped,
        ensures
            final(self).mode == old(self).mode,
            final(self).chain@.len() == old(self).chain@.len(),
            match r {
                Ok(v) => {
                    if old(self).mode is Linear {
                        exists|vs: Seq<i64>|
                            {
                                &&& vs.len() == old(self).chain@.len() + 1
                                &&& vs[0] == input
                                &&& v == vs.last()
                                &&& forall|i: int|
                                    0 <= i < old(self).chain@.len() ==> #[trigger] amp_runs(
                                        old(self).chain@[i].computer@,
                                        old(self).chain@[i].setting,
                                        vs[i],
                                        final(self).chain@[i].computer@,
                                        vs[i + 1],
                                    )
                            }
                    } else {
                        ring_result(old(self).chain@, input, final(self).chain@, v)
                    }
                },
                Err(e) => {
                    if old(self).mode is Linear {
                        linear_failure(old(self).chain@, final(self).chain@, input, e)
                    } else {
                        ring_failure(old(self).chain@, input, e)
                    }
                },
            },
    {
        match self.mode {
            AmplifierChainMode::Linear => self.run_linear(input),
            AmplifierChainMode::Feedback => self.run_feedback(input),
        }
    }
}

/// What permutator's Heap's-algorithm iterator yields for a sequence of
/// values: the successive reorderings, not including the original order.
/// The result depends on the values alone.
pub uninterp spec fn heap_permutations_of(s: Seq<i64>) -> Seq<Seq<i64>>;

/// Relies on permutator's `Combination::combination`: asking for as many
/// elements as the data holds yields the one combination equal to the data
/// in order.  The iterator's constructor counts the combinations through
/// factorial products, which overflow the unsigned 64-bit machine word
/// beyond twenty elements, so longer data is left out.
#[verifier::external_body]
fn full_combination(data: &[i64]) -> (r: Vec<i64>)
    requires
        0 < data@.len() <= 20,
    ensures
        r@ == data@,
{
    let mut out: Vec<i64> = Vec::new();
    data.combination(data.len()).for_each(|c| {
        out = c.into_iter().map(|x| *x).collect();
    });
    out
}

/// Relies on permutator's `Permutation::permutation` (Heap's algorithm):
/// every yielded vector is a reordering of the data, holding the same
/// values the same number of times, and the whole sequence of them is a
/// function of the data alone.
#[verifier::external_body]
fn heap_permutations(data: &Vec<i64>) -> (r: Vec<Vec<i64>>)
    ensures
        r@.map_values(|v: Vec<i64>| v@) == heap_permutations_of(data@),
        forall|i: int| 0 <= i < r@.len() ==> (#[trigger] r@[i])@.len() == data@.len(),
        forall|i: int|
            0 <= i < r@.len() ==> (#[trigger] r@[i])@.to_multiset() == data@.to_multiset(),
{
    let mut refs: Vec<&i64> = data.iter().collect();
    let mut out: Vec<Vec<i64>> = Vec::new();
    refs.permutation().for_each(|p| {
        out.push(p.into_iter().map(|x| *x).collect());
    });
    out
}

/// All orderings that the search below tries: the heap permutations of the
/// full data.  At most twenty values, the bound the combination step can
/// count under.
pub fn get_all_combinations_settings(data: &[i64]) -> (r: Vec<Vec<i64>>)
    requires
        0 < data@.len() <= 20,
    ensures
        r@.map_values(|v: Vec<i64>| v@) == heap_permutations_of(data@),
        forall|i: int| 0 <= i < r@.len() ==> (#[trigger] r@[i])@.len() == data@.len(),
        forall|i: int|
            0 <= i < r@.len() ==> (#[trigger] r@[i])@.to_multiset() == data@.to_multiset(),
{
    let combo = full_combination(data);
    heap_permutations(&combo)
}

/// From five fresh stages over `program` with phase settings `settings`, a
/// linear pass on `input` can end with stage machines `msf`, threading the
/// values `vs`.
pub open spec fn linear_stages_ok(
    program: Seq<i64>,
    settings: Seq<i64>,
    vs: Seq<i64>,
    msf: Seq<MachineView>,
) -> bool {
    &&& vs.len() == settings.len() + 1
    &&& msf.len() == settings.len()
    &&& forall|i: int|
        0 <= i < settings.len() ==> #[trigger] amp_runs(
            spec_loaded(program, Seq::empty(), false),
            settings[i],
            vs[i],
            msf[i],
            vs[i + 1],
        )
}

/// A linear pass from fresh stages yields `v`.
pub open spec fn linear_result_of(
    program: Seq<i64>,
    settings: Seq<i64>,
    input: i64,
    v: i64,
) -> bool {
    exists|vs: Seq<i64>, msf: Seq<MachineView>|
        #[trigger] linear_stages_ok(program, settings, vs, msf) && vs[0] == input && v
            == vs.last()
}

/// `n` fresh resumable machines over one program, one per ring stage.
pub open spec fn fresh_ring_machines(program: Seq<i64>, n: nat) -> Seq<MachineView> {
    Seq::new(n, |i: int| spec_loaded(program, Seq::empty(), true))
}

/// A feedback-ring run from fresh stages yields `v`.
pub open spec fn feedback_result_of(
    program: Seq<i64>,
    settings: Seq<i64>,
    input: i64,
    v: i64,
) -> bool {
    exists|msf: Seq<MachineView>, fuel: nat|
        #[trigger] spec_ring(
            settings,
            fresh_ring_machines(program, settings.len()),
            0,
            input,
            msf,
            v,
            fuel,
        )
}

/// A chain run from fresh stages in the given wiring yields `v`.
pub open spec fn chain_result_of(
    program: Seq<i64>,
    settings: Seq<i64>,
    mode: AmplifierChainMode,
    input: i64,
    v: i64,
) -> bool {
    if mode is Linear {
        linear_result_of(program, settings, input, v)
    } else {
        feedback_result_of(program, settings, input, v)
    }
}

/// The left fold of the search: the largest value seen, starting from
/// `acc`.
pub open spec fn spec_fold_max(vals: Seq<i64>, acc: i64) -> i64
    decreases vals.len(),
{
    if vals.len() == 0 {
        acc
    } else {
        let m = spec_fold_max(vals.drop_last(), acc);
        if vals.last() > m {
            vals.last()
        } else {
            m
        }
    }
}

/// Five fresh stages over one program with the given settings and wiring.
pub open spec fn fresh_chain_of(
    pre: Seq<Amplifier>,
    program: Seq<i64>,
    settings: Seq<i64>,
    mode: AmplifierChainMode,
) -> bool {
    &&& pre.len() == 5
    &&& settings.len() == 5
    &&& forall|i: int|
        0 <= i < 5 ==> (#[trigger] pre[i]).setting == settings[i] && pre[i].computer@
            == spec_loaded(program, Seq::empty(), mode is Feedback)
}

/// A run of a fresh chain over these settings failed with `e`.
pub open spec fn chain_failure_of(
    program: Seq<i64>,
    settings: Seq<i64>,
    mode: AmplifierChainMode,
    input: i64,
    e: AmplifierError,
) -> bool {
    if mode is Linear {
        exists|pre: Seq<Amplifier>, post: Seq<Amplifier>|
            #![trigger fresh_chain_of(pre, program, settings, mode), linear_failure(pre, post, input, e)]
            fresh_chain_of(pre, program, settings, mode) && linear_failure(pre, post, input, e)
    } else {
        exists|pre: Seq<Amplifier>|
            #[trigger] fresh_chain_of(pre, program, settings, mode) && ring_failure(
                pre,
                input,
                e,
            )
    }
}

/// A run of a fresh chain over these settings produced some value.
pub open spec fn chain_succeeds_of(
    program: Seq<i64>,
    settings: Seq<i64>,
    mode: AmplifierChainMode,
    input: i64,
) -> bool {
    exists|v: i64| #[trigger] chain_result_of(program, settings, mode, input, v)
}

/// Each tried permutation produced the corresponding value, seeding each
/// chain with input zero.
pub open spec fn search_outcomes(
    program: Seq<i64>,
    seed: Seq<i64>,
    mode: AmplifierChainMode,
    vals: Seq<i64>,
) -> bool {
    &&& vals.len() == heap_permutations_of(seed).len()
    &&& forall|i: int|
        0 <= i < vals.len() ==> #[trigger] chain_result_of(
            program,
            heap_permutations_of(seed)[i].take(5),
            mode,
            0,
            vals[i],
        )
}

/// Tries every phase-setting permutation of the seed, runs a fresh chain
/// on input zero for each, and returns the largest output seen (at least
/// zero).  The first failing chain run aborts the search.
pub fn get_optimized_amplifier_chain(
    program: Vec<i64>,
    seed: &[i64],
    mode: AmplifierChainMode,
) -> (r: Result<i64, AmplifierError>)
    requires
        5 <= seed@.len() <= 20,
        program@.len() <= i64::MAX,
    ensures
        match r {
            Ok(m) => exists|vals: Seq<i64>|
                #[trigger] search_outcomes(program@, seed@, mode, vals) && m == spec_fold_max(
                    vals,
                    0,
                ),
            Err(e) => exists|i: int|
                {
                    &&& 0 <= i < heap_permutations_of(seed@).len()
                    &&& #[trigger] chain_failure_of(
                        program@,
                        heap_permutations_of(seed@)[i].take(5),
                        mode,
                        0,
                        e,
                    )
                    &&& forall|i2: int|
                        0 <= i2 < i ==> #[trigger] chain_succeeds_of(
                            program@,
                            heap_permutations_of(seed@)[i2].take(5),
                            mode,
                            0,
                        )
                },
        },
{
    let permutations = get_all_combinations_settings(seed);
    let ghost perm_views = heap_permutations_of(seed@);
    let mut max: i64 = 0;
    let ghost mut vals: Seq<i64> = Seq::empty();
    let mut p: usize = 0;
    while p < permutations.len()
        invariant
            seed@.len() >= 5,
            program@.len() <= i64::MAX,
            perm_views == heap_permutations_of(seed@),
            permutations@.map_values(|v: Vec<i64>| v@) == perm_views,
            forall|i: int|
                0 <= i < permutations@.len() ==> (#[trigger] permutations@[i])@.len()
                    == seed@.len(),
            p <= permutations@.len(),
            vals.len() == p,
            max == spec_fold_max(vals, 0),
            forall|i: int|
                0 <= i < p ==> #[trigger] chain_result_of(
                    program@,
                    perm_views[i].take(5),
                    mode,
                    0,
                    vals[i],
                ),
        decreases permutations@.len() - p,
    {
        proof {
            assert(permutations@[p as int]@ == perm_views[p as int]);
        }
        let settings = permutations[p].clone();
        let mut amplifier_chain = AmplifierChain::new(settings, program.clone(), mode);
        let ghost chain0 = amplifier_chain.chain@;
        let output = match amplifier_chain.run(0) {
            Ok(v) => v,
            Err(e) => {
                proof {
                    assert forall|i2: int| 0 <= i2 < p implies #[trigger] chain_succeeds_of(
                        program@,
                        perm_views[i2].take(5),
                        mode,
                        0,
                    ) by {
                        assert(chain_result_of(program@, perm_views[i2].take(5), mode, 0, vals[i2]));
                    }
                    let st5 = perm_views[p as int].take(5);
                    assert(fresh_chain_of(chain0, program@, st5, mode)) by {
                        assert forall|i2: int| 0 <= i2 < 5 implies (#[trigger] chain0[i2]).setting
                            == st5[i2] && chain0[i2].computer@ == spec_loaded(
                            program@,
                            Seq::empty(),
                            mode is Feedback,
                        ) by {}
                    }
                    assert(chain_failure_of(program@, st5, mode, 0, e));
                }
                return Err(e);
            },
        };
        proof {
            lemma_chain_result(
                program@,
                perm_views[p as int],
                mode,
                chain0,
                amplifier_chain.chain@,
                output,
            );
            assert(vals.push(output).drop_last() == vals);
            assert(vals.push(output).last() == output);
            vals = vals.push(output);
        }
        if output > max {
            max = output;
        }
        p = p + 1;
    }
    proof {
        assert(search_outcomes(program@, seed@, mode, vals));
    }
    Ok(max)
}

/// A successful run of a freshly built chain realizes the corresponding
/// chain result for its first five settings.
proof fn lemma_chain_result(
    program: Seq<i64>,
    settings: Seq<i64>,
    mode: AmplifierChainMode,
    chain0: Seq<Amplifier>,
    chainf: Seq<Amplifier>,
    v: i64,
)
    requires
        settings.len() >= 5,
        chain0.len() == 5,
        forall|i: int|
            0 <= i < 5 ==> (#[trigger] chain0[i]).setting == settings[i]
                && chain0[i].computer@ == spec_loaded(program, Seq::empty(), mode is Feedback),
        mode is Linear ==> exists|vs: Seq<i64>|
            {
                &&& vs.len() == chain0.len() + 1
                &&& vs[0] == 0i64
                &&& v == vs.last()
                &&& forall|i: int|
                    0 <= i < chain0.len() ==> #[trigger] amp_runs(
                        chain0[i].computer@,
                        chain0[i].setting,
                        vs[i],
                        chainf[i].computer@,
                        vs[i + 1],
                    )
            },
        mode is Feedback ==> ring_result(chain0, 0, chainf, v),
        chainf.len() == 5,
    ensures
        chain_result_of(program, settings.take(5), mode, 0, v),
{
    let st5 = settings.take(5);
    if mode is Linear {
        let vs = choose|vs: Seq<i64>|
            {
                &&& vs.len() == chain0.len() + 1
                &&& vs[0] == 0i64
                &&& v == vs.last()
                &&& forall|i: int|
                    0 <= i < chain0.len() ==> #[trigger] amp_runs(
                        chain0[i].computer@,
                        chain0[i].setting,
                        vs[i],
                        chainf[i].computer@,
                        vs[i + 1],
                    )
            };
        let msf = Seq::new(5, |i: int| chainf[i].computer@);
        assert forall|i: int| 0 <= i < st5.len() implies #[trigger] amp_runs(
            spec_loaded(program, Seq::empty(), false),
            st5[i],
            vs[i],
            msf[i],
            vs[i + 1],
        ) by {
            assert(amp_runs(
                chain0[i].computer@,
                chain0[i].setting,
                vs[i],
                chainf[i].computer@,
                vs[i + 1],
            ));
        }
        assert(linear_stages_ok(program, st5, vs, msf));
        assert(linear_result_of(program, st5, 0, v));
    } else {
        let fuel = choose|fuel: nat|
            #[trigger] spec_ring(
                chain_settings(chain0),
                chain_machines(chain0),
                0,
                0i64,
                chain_machines(chainf),
                v,
                fuel,
            );
        assert(chain_settings(chain0) =~= st5);
        assert(chain_machines(chain0) =~= fresh_ring_machines(program, st5.len()));
        assert(spec_ring(
            st5,
            fresh_ring_machines(program, st5.len()),
            0,
            0i64,
            chain_machines(chainf),
            v,
            fuel,
        ));
        assert(feedback_result_of(program, st5, 0, v));
    }
}

/// The phase settings tried by the linear search.
pub open spec fn linear_seed() -> Seq<i64> {
    seq![0i64, 1i64, 2i64, 3i64, 4i64]
}

/// The phase settings tried by the feedback search.
pub open spec fn feedback_seed() -> Seq<i64> {
    seq![5i64, 6i64, 7i64, 8i64, 9i64]
}

/// The best linear chain over the phase settings zero to four.
pub fn part_1(program: Vec<i64>) -> (r: Result<i64, AmplifierError>)
    requires
        program@.len() <= i64::MAX,
    ensures
        match r {
            Ok(m) => exists|vals: Seq<i64>|
                #[trigger] search_outcomes(
                    program@,
                    linear_seed(),
                    AmplifierChainMode::Linear,
                    vals,
                ) && m == spec_fold_max(vals, 0),
            Err(e) => exists|i: int|
                0 <= i < heap_permutations_of(linear_seed()).len()
                    && #[trigger] chain_failure_of(
                    program@,
                    heap_permutations_of(linear_seed())[i].take(5),
                    AmplifierChainMode::Linear,
                    0,
                    e,
                ),
        },
{
    let seed: [i64; 5] = [0, 1, 2, 3, 4];
    let r = get_optimized_amplifier_chain(program, seed.as_slice(), AmplifierChainMode::Linear);
    proof {
        assert(seed@ =~= linear_seed());
    }
    r
}

/// The best feedback ring over the phase settings five to nine.
pub fn part_2(program: Vec<i64>) -> (r: Result<i64, AmplifierError>)
    requires
        program@.len() <= i64::MAX,
    ensures
        match r {
            Ok(m) => exists|vals: Seq<i64>|
                #[trigger] search_outcomes(
                    program@,
                    feedback_seed(),
                    AmplifierChainMode::Feedback,
                    vals,
                ) && m == spec_fold_max(vals, 0),
            Err(e) => exists|i: int|
                0 <= i < heap_permutations_of(feedback_seed()).len()
                    && #[trigger] chain_failure_of(
                    program@,
                    heap_permutations_of(feedback_seed())[i].take(5),
                    AmplifierChainMode::Feedback,
                    0,
                    e,
                ),
        },
{
    let seed: [i64; 5] = [5, 6, 7, 8, 9];
    let r = get_optimized_amplifier_chain(program, seed.as_slice(), AmplifierChainMode::Feedback);
    proof {
        assert(seed@ =~= feedback_seed());
    }
    r
}

} // verus!
