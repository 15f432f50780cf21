//! The mixing engine's per-block buffer work, on fixed-point samples. A
//! channel is mono (one buffer) or stereo (left and right); an output channel
//! accumulates scaled copies of input channels, adapting mono and stereo to
//! each other. The audio client converts its float buffers to scaled integer
//! samples at the block boundary and back afterwards.

use vstd::prelude::*;

use vstd::string::StringExecFns;

use crate::config::MixerConfig;
use crate::config::PortConfig;
use crate::gain::Gain;
use crate::gain::SAMPLE_MAX;
use crate::gain::apply_gain_add;
use crate::gain::gain_mul;
use crate::gain::lemma_vol_gain_mixes;
use crate::gain::spec_scaled_add;

verus! {

/// One channel's sample buffers for the current block. A mono channel uses
/// `l` alone and keeps `r` empty.
pub struct MixChannel {
    pub is_output: bool,
    pub is_mono: bool,
    pub l: Vec<i64>,
    pub r: Vec<i64>,
}

/// Pointwise saturated accumulation of `inp` scaled by `g` onto `out`.
pub open spec fn spec_mix1(out: Seq<i64>, inp: Seq<i64>, g: Gain) -> Seq<i64> {
    Seq::new(out.len(), |k: int| spec_scaled_add(out[k] as int, inp[k] as int, g) as i64)
}

/// Every sample of `s` is within the mixer's accepted magnitude.
pub open spec fn samples_bounded(s: Seq<i64>) -> bool {
    forall|k: int| 0 <= k < s.len() ==> -SAMPLE_MAX <= #[trigger] s[k] <= SAMPLE_MAX
}

impl MixChannel {
    /// Buffer shape: a mono channel has no right buffer, a stereo channel has
    /// equally long left and right buffers.
    pub open spec fn wf(&self) -> bool {
        if self.is_mono {
            self.r@.len() == 0
        } else {
            self.l@.len() == self.r@.len()
        }
    }

    pub open spec fn frames(&self) -> int {
        self.l@.len() as int
    }

    pub fn new_output(mono: bool, frames: usize) -> (c: MixChannel)
        ensures
            c.wf(),
            c.is_output,
            c.is_mono == mono,
            c.frames() == frames,
            c.l@ =~= Seq::new(frames as nat, |k: int| 0i64),
            !mono ==> c.r@ =~= Seq::new(frames as nat, |k: int| 0i64),
    {
        let l = zero_buf(frames);
        let r = if mono {
            Vec::new()
        } else {
            zero_buf(frames)
        };
        MixChannel { is_output: true, is_mono: mono, l, r }
    }

    pub fn new_input(mono: bool, l: Vec<i64>, r: Vec<i64>) -> (c: MixChannel)
        requires
            mono ==> r@.len() == 0,
            !mono ==> l@.len() == r@.len(),
        ensures
            c.wf(),
            !c.is_output,
            c.is_mono == mono,
            c.l@ == l@,
            c.r@ == r@,
    {
        MixChannel { is_output: false, is_mono: mono, l, r }
    }

    /// Zero every sample of an output channel; an input channel is left
    /// untouched.
    pub fn zero(&mut self)
        ensures
            final(self).is_output == old(self).is_output,
            final(self).is_mono == old(self).is_mono,
            final(self).l@.len() == old(self).l@.len(),
            final(self).r@.len() == old(self).r@.len(),
            !old(self).is_output ==> *final(self) == *old(self),
            old(self).is_output ==> final(self).l@ =~= Seq::new(
                old(self).l@.len(),
                |k: int| 0i64,
            ) && final(self).r@ =~= Seq::new(old(self).r@.len(), |k: int| 0i64),
    {
        if !self.is_output {
            return ;
        }
        zero_in_place(&mut self.l);
        zero_in_place(&mut self.r);
    }

    /// Accumulate `other`, scaled by volume `vol` and the balance pair `bal`,
    /// onto this output channel. Mono targets ignore balance; a stereo source
    /// feeding a mono target contributes the sum of both its sides; a mono
    /// source feeding a stereo target is broadcast to both sides, each with
    /// its own balance component. An input channel is left untouched.
    pub fn copy_from(&mut self, other: &MixChannel, vol: Gain, bal: (Gain, Gain))
        requires
            old(self).wf(),
            other.wf(),
            other.frames() == old(self).frames(),
            vol.volg_wf(),
            bal.0.balg_wf(),
            bal.1.balg_wf(),
            samples_bounded(other.l@),
            samples_bounded(other.r@),
        ensures
            final(self).wf(),
            final(self).is_output == old(self).is_output,
            final(self).is_mono == old(self).is_mono,
            final(self).frames() == old(self).frames(),
            !old(self).is_output ==> *final(self) == *old(self),
            old(self).is_output && old(self).is_mono && other.is_mono ==> final(self).l@
                =~= spec_mix1(old(self).l@, other.l@, vol),
            old(self).is_output && old(self).is_mono && !other.is_mono ==> final(self).l@
                =~= spec_mix1(spec_mix1(old(self).l@, other.l@, vol), other.r@, vol),
            old(self).is_output && !old(self).is_mono && other.is_mono ==> final(self).l@
                =~= spec_mix1(old(self).l@, other.l@, crate::gain::spec_gain_mul(vol, bal.0))
                && final(self).r@ =~= spec_mix1(
                old(self).r@,
                other.l@,
                crate::gain::spec_gain_mul(vol, bal.1),
            ),
            old(self).is_output && !old(self).is_mono && !other.is_mono ==> final(self).l@
                =~= spec_mix1(old(self).l@, other.l@, crate::gain::spec_gain_mul(vol, bal.0))
                && final(self).r@ =~= spec_mix1(
                old(self).r@,
                other.r@,
                crate::gain::spec_gain_mul(vol, bal.1),
            ),
    {
        if !self.is_output {
            return ;
        }
        proof {
            lemma_vol_gain_mixes(vol);
        }
        if self.is_mono {
            if other.is_mono {
                mix1_in_place(&mut self.l, &other.l, vol);
            } else {
                mix1_in_place(&mut self.l, &other.l, vol);
                mix1_in_place(&mut self.l, &other.r, vol);
            }
        } else {
            let gl = gain_mul(vol, bal.0);
            let gr = gain_mul(vol, bal.1);
            if other.is_mono {
                mix1_in_place(&mut self.l, &other.l, gl);
                mix1_in_place(&mut self.r, &other.l, gr);
            } else {
                mix1_in_place(&mut self.l, &other.l, gl);
                mix1_in_place(&mut self.r, &other.r, gr);
            }
        }
    }
}

/// A fresh all-zero buffer of `frames` samples.
fn zero_buf(frames: usize) -> (r: Vec<i64>)
    ensures
        r@ =~= Seq::new(frames as nat, |k: int| 0i64),
{
    let mut r: Vec<i64> = Vec::new();
    let mut i: usize = 0;
    while i < frames
        invariant
            i <= frames,
            r@.len() == i,
            forall|k: int| 0 <= k < i ==> r@[k] == 0i64,
        decreases frames - i,
    {
        r.push(0);
        i = i + 1;
    }
    r
}

/// Zero a buffer in place.
fn zero_in_place(buf: &mut Vec<i64>)
    ensures
        final(buf)@ =~= Seq::new(old(buf)@.len(), |k: int| 0i64),
{
    let n = buf.len();
    let mut i: usize = 0;
    while i < n
        invariant
            i <= n,
            n == buf@.len(),
            forall|k: int| 0 <= k < i ==> buf@[k] == 0i64,
        decreases n - i,
    {
        buf.set(i, 0);
        i = i + 1;
    }
}

/// Pointwise `out[k] = clip(out[k] + inp[k] * g)` over the whole buffer.
fn mix1_in_place(out: &mut Vec<i64>, inp: &Vec<i64>, g: Gain)
    requires
        inp@.len() == old(out)@.len(),
        g.mix_wf(),
        samples_bounded(inp@),
    ensures
        final(out)@ =~= spec_mix1(old(out)@, inp@, g),
{
    let n = out.len();
    let mut i: usize = 0;
    while i < n
        invariant
            i <= n,
            n == out@.len(),
            n == inp@.len(),
            g.mix_wf(),
            samples_bounded(inp@),
            forall|k: int| i <= k < n ==> out@[k] == old(out)@[k],
            forall|k: int| 0 <= k < i ==> out@[k] == spec_scaled_add(
                old(out)@[k] as int,
                inp@[k] as int,
                g,
            ),
        decreases n - i,
    {
        let v = apply_gain_add(out[i], inp[i], g);
        out.set(i, v);
        i = i + 1;
    }
}

/// The input-monitor pass for one channel: zero the monitor output, then copy
/// the captured input onto it scaled by the input's own volume and balance.
pub fn mix_input_monitor(io: &mut MixChannel, inp: &MixChannel, cfg: &PortConfig)
    requires
        old(io).wf(),
        inp.wf(),
        old(io).is_output,
        inp.frames() == old(io).frames(),
        cfg.wf(),
        samples_bounded(inp.l@),
        samples_bounded(inp.r@),
    ensures
        final(io).wf(),
        final(io).is_output,
        final(io).is_mono == old(io).is_mono,
        final(io).frames() == old(io).frames(),
        final(io).l@ == spec_mix_adapted(
            Seq::new(old(io).l@.len(), |k: int| 0i64),
            Seq::new(old(io).r@.len(), |k: int| 0i64),
            old(io).is_mono,
            *inp,
            cfg.spec_vol_gain(),
            cfg.spec_bal_pair(),
        ).0,
        final(io).r@ == spec_mix_adapted(
            Seq::new(old(io).l@.len(), |k: int| 0i64),
            Seq::new(old(io).r@.len(), |k: int| 0i64),
            old(io).is_mono,
            *inp,
            cfg.spec_vol_gain(),
            cfg.spec_bal_pair(),
        ).1,
{
    io.zero();
    let vol = crate::gain::vol_gain(cfg.vol);
    let bal = crate::gain::bal_pair(cfg.balance);
    io.copy_from(inp, vol, bal);
}

/// The channel-adaptation rule as one spec-level function: what the left and
/// right buffers of an output hold after accumulating `src` with volume `vol`
/// and balance pair `bal`.
pub open spec fn spec_mix_adapted(
    out_l: Seq<i64>,
    out_r: Seq<i64>,
    out_mono: bool,
    src: MixChannel,
    vol: Gain,
    bal: (Gain, Gain),
) -> (Seq<i64>, Seq<i64>) {
    if out_mono {
        if src.is_mono {
            (spec_mix1(out_l, src.l@, vol), out_r)
        } else {
            (spec_mix1(spec_mix1(out_l, src.l@, vol), src.r@, vol), out_r)
        }
    } else {
        if src.is_mono {
            (
                spec_mix1(out_l, src.l@, crate::gain::spec_gain_mul(vol, bal.0)),
                spec_mix1(out_r, src.l@, crate::gain::spec_gain_mul(vol, bal.1)),
            )
        } else {
            (
                spec_mix1(out_l, src.l@, crate::gain::spec_gain_mul(vol, bal.0)),
                spec_mix1(out_r, src.r@, crate::gain::spec_gain_mul(vol, bal.1)),
            )
        }
    }
}

/// One bus contribution at the spec level: what accumulating the named input
/// onto the buffers yields. A name with no settings, no captured channel, or
/// a captured channel of the wrong length contributes nothing: inside the
/// audio block a missing party skips that contribution rather than fail.
pub open spec fn spec_bus_step(
    l: Seq<i64>,
    r: Seq<i64>,
    out_mono: bool,
    iname: Seq<char>,
    ocfg: PortConfig,
    mixer: &MixerConfig,
    inputs: Seq<(String, MixChannel)>,
) -> (Seq<i64>, Seq<i64>) {
    if mixer.spec_cfg(false, iname) is Some && spec_find_channel(inputs, iname) is Some
        && inputs[spec_find_channel(inputs, iname)->Some_0].1.l@.len() == l.len() {
        let c = mixer.spec_cfg(false, iname)->Some_0;
        let src = inputs[spec_find_channel(inputs, iname)->Some_0].1;
        let vol = crate::gain::spec_gain_mul(c.spec_vol_gain(), ocfg.spec_vol_gain());
        let bal = (
            crate::gain::spec_gain_mul(c.spec_bal_pair().0, ocfg.spec_bal_pair().0),
            crate::gain::spec_gain_mul(c.spec_bal_pair().1, ocfg.spec_bal_pair().1),
        );
        spec_mix_adapted(l, r, out_mono, src, vol, bal)
    } else {
        (l, r)
    }
}

/// The whole bus pass at the spec level: the fold of `spec_bus_step` over
/// the wired input names, in order.
pub open spec fn spec_bus_fold(
    l: Seq<i64>,
    r: Seq<i64>,
    out_mono: bool,
    cons: Seq<String>,
    ocfg: PortConfig,
    mixer: &MixerConfig,
    inputs: Seq<(String, MixChannel)>,
) -> (Seq<i64>, Seq<i64>)
    decreases cons.len(),
{
    if cons.len() == 0 {
        (l, r)
    } else {
        let prev = spec_bus_fold(l, r, out_mono, cons.drop_last(), ocfg, mixer, inputs);
        spec_bus_step(prev.0, prev.1, out_mono, cons.last()@, ocfg, mixer, inputs)
    }
}

/// The bus pass for one output: zero it, then accumulate every input channel
/// wired to it, in wiring order, with the combined gain (input volume times
/// output volume) and the combined balance pair (componentwise product). The
/// result is the fold of the adaptation rule over the bus's input list.
pub fn mix_output_bus(
    out: &mut MixChannel,
    oname: &String,
    mixer: &MixerConfig,
    inputs: &Vec<(String, MixChannel)>,
) -> (applied: usize)
    requires
        old(out).wf(),
        old(out).is_output,
        mixer.wf(),
        forall|k: int|
            0 <= k < inputs@.len() ==> (#[trigger] inputs@[k].1).wf() && samples_bounded(
                inputs@[k].1.l@,
            ) && samples_bounded(inputs@[k].1.r@),
    ensures
        final(out).wf(),
        final(out).is_output,
        final(out).is_mono == old(out).is_mono,
        final(out).frames() == old(out).frames(),
        mixer.spec_cfg(true, oname@) is Some ==> exists|cons: Seq<String>|
            #[trigger] mixer.connections.lists_inputs_of(oname@, cons) && {
                let folded = spec_bus_fold(
                    Seq::new(old(out).l@.len(), |k: int| 0i64),
                    Seq::new(old(out).r@.len(), |k: int| 0i64),
                    old(out).is_mono,
                    cons,
                    mixer.spec_cfg(true, oname@)->Some_0,
                    mixer,
                    inputs@,
                );
                final(out).l@ == folded.0 && final(out).r@ == folded.1
            },
        mixer.spec_cfg(true, oname@) is None ==> final(out).l@ =~= Seq::new(
            old(out).l@.len(),
            |k: int| 0i64,
        ) && final(out).r@ =~= Seq::new(old(out).r@.len(), |k: int| 0i64),
{
    out.zero();
    let ghost zl = Seq::new(old(out).l@.len(), |k: int| 0i64);
    let ghost zr = Seq::new(old(out).r@.len(), |k: int| 0i64);
    let cons = mixer.connections.inputs_of(oname.as_str());
    let ovol = match mixer.get_vol(true, oname) {
        Ok(g) => g,
        Err(()) => {
            return 0;
        },
    };
    let obal = match mixer.get_bal_pair(true, oname) {
        Ok(p) => p,
        Err(()) => {
            return 0;
        },
    };
    let ghost ocfg = mixer.spec_cfg(true, oname@)->Some_0;
    let mut applied: usize = 0;
    let n = cons.len();
    for ci in 0..n
        invariant
            n == cons@.len(),
            mixer.wf(),
            out.wf(),
            out.is_output,
            out.is_mono == old(out).is_mono,
            out.frames() == old(out).frames(),
            zl.len() == old(out).l@.len(),
            zr.len() == old(out).r@.len(),
            mixer.spec_cfg(true, oname@) is Some,
            ocfg == mixer.spec_cfg(true, oname@)->Some_0,
            ovol == ocfg.spec_vol_gain(),
            obal == ocfg.spec_bal_pair(),
            ovol.vol1_wf(),
            obal.0.bal1_wf(),
            obal.1.bal1_wf(),
            applied <= ci,
            forall|k: int|
                0 <= k < inputs@.len() ==> (#[trigger] inputs@[k].1).wf() && samples_bounded(
                    inputs@[k].1.l@,
                ) && samples_bounded(inputs@[k].1.r@),
            (out.l@, out.r@) == spec_bus_fold(
                zl,
                zr,
                old(out).is_mono,
                cons@.take(ci as int),
                ocfg,
                mixer,
                inputs@,
            ),
    {
        let ghost pre_l = out.l@;
        let ghost pre_r = out.r@;
        let iname = &cons[ci];
        let ivol = mixer.get_vol(false, iname);
        let ibal = mixer.get_bal_pair(false, iname);
        match (ivol, ibal, find_channel(inputs, iname.as_str())) {
            (Ok(ivol), Ok(ibal), Some(idx)) => {
                let src = &inputs[idx].1;
                let frames_match = src.l.len() == out.l.len();
                if frames_match {
                    let vol = combine_vol(ivol, ovol);
                    let bal = combine_bal(ibal, obal);
                    out.copy_from(src, vol, bal);
                    applied = applied + 1;
                    proof {
                        assert((out.l@, out.r@) == spec_bus_step(
                            pre_l,
                            pre_r,
                            old(out).is_mono,
                            cons@[ci as int]@,
                            ocfg,
                            mixer,
                            inputs@,
                        ));
                    }
                } else {
                    proof {
                        assert((out.l@, out.r@) == spec_bus_step(
                            pre_l,
                            pre_r,
                            old(out).is_mono,
                            cons@[ci as int]@,
                            ocfg,
                            mixer,
                            inputs@,
                        ));
                    }
                }
            },
            _ => {
                proof {
                    assert((out.l@, out.r@) == spec_bus_step(
                        pre_l,
                        pre_r,
                        old(out).is_mono,
                        cons@[ci as int]@,
                        ocfg,
                        mixer,
                        inputs@,
                    ));
                }
            },
        }
        proof {
            assert(cons@.take(ci as int + 1).drop_last() =~= cons@.take(ci as int));
            assert(cons@.take(ci as int + 1).last() == cons@[ci as int]);
        }
    }
    proof {
        assert(cons@.take(n as int) =~= cons@);
        assert(mixer.connections.lists_inputs_of(oname@, cons@));
    }
    applied
}

/// The monitor pass: zero the monitor bus, then copy the currently selected
/// channel onto it, scaled by that channel's own volume and balance. A
/// selection whose settings are gone contributes silence.
pub fn mix_monitor(
    mon: &mut MixChannel,
    selected: &MixChannel,
    mixer: &MixerConfig,
) -> (applied: bool)
    requires
        old(mon).wf(),
        old(mon).is_output,
        selected.wf(),
        selected.frames() == old(mon).frames(),
        mixer.wf(),
        samples_bounded(selected.l@),
        samples_bounded(selected.r@),
    ensures
        final(mon).wf(),
        final(mon).is_output,
        final(mon).is_mono == old(mon).is_mono,
        final(mon).frames() == old(mon).frames(),
        applied ==> {
            let zl = Seq::new(old(mon).l@.len(), |k: int| 0i64);
            let zr = Seq::new(old(mon).r@.len(), |k: int| 0i64);
            let cfg = mixer.spec_cfg(!mixer.monitor.is_input, mixer.monitor.channel@)->Some_0;
            &&& mixer.spec_port_exists(!mixer.monitor.is_input, mixer.monitor.channel@)
            &&& final(mon).l@ == spec_mix_adapted(
                zl,
                zr,
                old(mon).is_mono,
                *selected,
                cfg.spec_vol_gain(),
                cfg.spec_bal_pair(),
            ).0
            &&& final(mon).r@ == spec_mix_adapted(
                zl,
                zr,
                old(mon).is_mono,
                *selected,
                cfg.spec_vol_gain(),
                cfg.spec_bal_pair(),
            ).1
        },
        !applied ==> final(mon).l@ =~= Seq::new(old(mon).l@.len(), |k: int| 0i64) && final(mon).r@
            =~= Seq::new(old(mon).r@.len(), |k: int| 0i64),
{
    mon.zero();
    let is_output = !mixer.monitor.is_input;
    let name = mixer.monitor.channel.clone();
    let vol = match mixer.get_vol(is_output, &name) {
        Ok(g) => g,
        Err(()) => {
            return false;
        },
    };
    let bal = match mixer.get_bal_pair(is_output, &name) {
        Ok(p) => p,
        Err(()) => {
            return false;
        },
    };
    mon.copy_from(selected, vol, bal);
    true
}

/// One transport port to register for the mixing engine: its name, its
/// direction, and whether it is mono (one underlying port) or stereo (two).
pub struct PortPlan {
    pub name: String,
    pub is_output: bool,
    pub mono: bool,
}

/// The ports the engine registers at startup: for every input channel a
/// capture port and a matching monitor output, for every output channel an
/// output port, and one stereo monitor bus.
pub fn registration_plan(mixer: &MixerConfig) -> (r: Vec<PortPlan>)
    requires
        mixer.wf(),
    ensures
        r@.len() == 2 * mixer.inputs.spec_len() + mixer.outputs.spec_len() + 1,
        forall|j: int|
            0 <= j < mixer.inputs.spec_len() ==> !(#[trigger] r@[2 * j]).is_output && r@[2
                * j].name@ == mixer.inputs.name_at(j) && r@[2 * j].mono == mixer.inputs.cfg_at(
                j,
            ).mono,
        forall|j: int|
            0 <= j < mixer.inputs.spec_len() ==> (#[trigger] r@[2 * j + 1]).is_output && r@[2 * j
                + 1].mono == mixer.inputs.cfg_at(j).mono,
        forall|j: int|
            0 <= j < mixer.outputs.spec_len() ==> (#[trigger] r@[2 * mixer.inputs.spec_len()
                + j]).is_output && r@[2 * mixer.inputs.spec_len() + j].name@
                == mixer.outputs.name_at(j) && r@[2 * mixer.inputs.spec_len() + j].mono
                == mixer.outputs.cfg_at(j).mono,
        r@.last().is_output && !r@.last().mono,
{
    let mut r: Vec<PortPlan> = Vec::new();
    let inames = mixer.inputs.names();
    let ni = inames.len();
    let mut j: usize = 0;
    while j < ni
        invariant
            mixer.wf(),
            ni == inames@.len(),
            ni == mixer.inputs.spec_len(),
            forall|m: int| 0 <= m < ni ==> (#[trigger] inames@[m]@) == mixer.inputs.name_at(m),
            j <= ni,
            r@.len() == 2 * j,
            forall|m: int|
                0 <= m < j ==> !(#[trigger] r@[2 * m]).is_output && r@[2 * m].name@
                    == mixer.inputs.name_at(m) && r@[2 * m].mono == mixer.inputs.cfg_at(m).mono,
            forall|m: int|
                0 <= m < j ==> (#[trigger] r@[2 * m + 1]).is_output && r@[2 * m + 1].mono
                    == mixer.inputs.cfg_at(m).mono,
        decreases ni - j,
    {
        proof {
            mixer.inputs.lemma_name_at_contains(j as int);
        }
        let cfg = match mixer.inputs.get(inames[j].as_str()) {
            Some(c) => c,
            None => {
                proof {
                    assert(false);
                }
                PortConfig::new(0, 0, false)
            },
        };
        r.push(PortPlan { name: inames[j].clone(), is_output: false, mono: cfg.mono });
        let mon_name = inames[j].clone().concat(" Out");
        r.push(PortPlan { name: mon_name, is_output: true, mono: cfg.mono });
        j = j + 1;
    }
    let onames = mixer.outputs.names();
    let no = onames.len();
    let mut j: usize = 0;
    while j < no
        invariant
            mixer.wf(),
            no == onames@.len(),
            no == mixer.outputs.spec_len(),
            ni == mixer.inputs.spec_len(),
            forall|m: int| 0 <= m < no ==> (#[trigger] onames@[m]@) == mixer.outputs.name_at(m),
            j <= no,
            r@.len() == 2 * ni + j,
            forall|m: int|
                0 <= m < ni ==> !(#[trigger] r@[2 * m]).is_output && r@[2 * m].name@
                    == mixer.inputs.name_at(m) && r@[2 * m].mono == mixer.inputs.cfg_at(m).mono,
            forall|m: int|
                0 <= m < ni ==> (#[trigger] r@[2 * m + 1]).is_output && r@[2 * m + 1].mono
                    == mixer.inputs.cfg_at(m).mono,
            forall|m: int|
                0 <= m < j ==> (#[trigger] r@[2 * ni + m]).is_output && r@[2 * ni + m].name@
                    == mixer.outputs.name_at(m) && r@[2 * ni + m].mono == mixer.outputs.cfg_at(
                    m,
                ).mono,
        decreases no - j,
    {
        proof {
            mixer.outputs.lemma_name_at_contains(j as int);
        }
        let cfg = match mixer.outputs.get(onames[j].as_str()) {
            Some(c) => c,
            None => {
                proof {
                    assert(false);
                }
                PortConfig::new(0, 0, false)
            },
        };
        r.push(PortPlan { name: onames[j].clone(), is_output: true, mono: cfg.mono });
        j = j + 1;
    }
    r.push(PortPlan { name: "MONITOR".to_owned(), is_output: true, mono: false });
    r
}

/// Index of the named channel in a capture list./// Position of the first channel with this name in a capture list.
pub open spec fn spec_find_channel(inputs: Seq<(String, MixChannel)>, name: Seq<char>) -> Option<
    int,
>
    decreases inputs.len(),
{
    if inputs.len() == 0 {
        None
    } else if inputs[0].0@ == name {
        Some(0int)
    } else {
        match spec_find_channel(inputs.skip(1), name) {
            Some(j) => Some(j + 1),
            None => None,
        }
    }
}

/// A scan that hits at `k` with no earlier match agrees with the position.
proof fn lemma_find_channel_at(inputs: Seq<(String, MixChannel)>, name: Seq<char>, k: int)
    requires
        0 <= k < inputs.len(),
        inputs[k].0@ == name,
        forall|m: int| 0 <= m < k ==> (#[trigger] inputs[m].0@) != name,
    ensures
        spec_find_channel(inputs, name) == Some(k),
    decreases k,
{
    if k > 0 {
        assert(inputs.skip(1)[k - 1] == inputs[k]);
        assert forall|m: int| 0 <= m < k - 1 implies (#[trigger] inputs.skip(1)[m].0@)
            != name by {
            assert(inputs.skip(1)[m] == inputs[m + 1]);
        }
        lemma_find_channel_at(inputs.skip(1), name, k - 1);
    }
}

/// A scan with no match at all agrees with the position.
proof fn lemma_find_channel_none(inputs: Seq<(String, MixChannel)>, name: Seq<char>)
    requires
        forall|m: int| 0 <= m < inputs.len() ==> (#[trigger] inputs[m].0@) != name,
    ensures
        spec_find_channel(inputs, name) is None,
    decreases inputs.len(),
{
    if inputs.len() > 0 {
        assert forall|m: int| 0 <= m < inputs.skip(1).len() implies (
        #[trigger] inputs.skip(1)[m].0@) != name by {
            assert(inputs.skip(1)[m] == inputs[m + 1]);
        }
        lemma_find_channel_none(inputs.skip(1), name);
    }
}

/// Index of the first channel named `name` in a capture list.
pub fn find_channel(inputs: &Vec<(String, MixChannel)>, name: &str) -> (r: Option<usize>)
    ensures
        match r {
            Some(idx) => spec_find_channel(inputs@, name@) == Some(idx as int) && idx
                < inputs@.len() && inputs@[idx as int].0@ == name@,
            None => spec_find_channel(inputs@, name@) is None,
        },
{
    let n = inputs.len();
    for k in 0..n
        invariant
            n == inputs@.len(),
            forall|m: int| 0 <= m < k ==> (#[trigger] inputs@[m].0@) != name@,
    {
        if crate::utils::str_eq(inputs[k].0.as_str(), name) {
            proof {
                lemma_find_channel_at(inputs@, name@, k as int);
            }
            return Some(k);
        }
    }
    proof {
        lemma_find_channel_none(inputs@, name@);
    }
    None
}

/// The combined volume gain of a bus contribution: input volume times output
/// volume.
pub fn combine_vol(ivol: Gain, ovol: Gain) -> (r: Gain)
    requires
        ivol.vol1_wf(),
        ovol.vol1_wf(),
    ensures
        r == crate::gain::spec_gain_mul(ivol, ovol),
        r.volg_wf(),
{
    crate::gain::vol_mul(ivol, ovol)
}

/// The combined balance pair of a bus contribution: the componentwise product
/// of the input's and the output's balance pairs.
pub fn combine_bal(ibal: (Gain, Gain), obal: (Gain, Gain)) -> (r: (Gain, Gain))
    requires
        ibal.0.bal1_wf(),
        ibal.1.bal1_wf(),
        obal.0.bal1_wf(),
        obal.1.bal1_wf(),
    ensures
        r.0 == crate::gain::spec_gain_mul(ibal.0, obal.0),
        r.1 == crate::gain::spec_gain_mul(ibal.1, obal.1),
        r.0.balg_wf(),
        r.1.balg_wf(),
{
    (crate::gain::bal_mul(ibal.0, obal.0), crate::gain::bal_mul(ibal.1, obal.1))
}

} // verus!
