//! The pulse-width protocol: the pulse train for a stream and the receiver's decoder.
use vstd::prelude::*;

verus! {

/// Low time before the initiation pulse, in microseconds.
pub const LEAD_LOW_US: u64 = 50;

/// Width of the initiation pulse, in microseconds.
pub const INITIATION_US: u64 = 500;

/// Width of the pulse for a 0 bit, in microseconds.
pub const SHORT_PULSE_US: u64 = 10;

/// Width of the pulse for a 1 bit, in microseconds.
pub const LONG_PULSE_US: u64 = 25;

/// Low time after each pulse, in microseconds.
pub const GUARD_US: u64 = 50;

/// Width of the termination pulse, in microseconds.
pub const TERMINATION_US: u64 = 1000;

/// Longest duration the receiver reads as a 0 bit, in microseconds: halfway between the
/// short and the long pulse.
pub const SHORT_MAX_US: u64 = (SHORT_PULSE_US + LONG_PULSE_US) / 2;

/// Longest duration read as a 1 bit, in microseconds: halfway between the long pulse and
/// the guard, so that the guard falls in the dropped band.
pub const LONG_MAX_US: u64 = (LONG_PULSE_US + GUARD_US) / 2;

/// Shortest initiation marker, in microseconds: halfway between the guard and the
/// initiation pulse.
pub const INITIATION_MIN_US: u64 = (GUARD_US + INITIATION_US) / 2;

/// Longest initiation marker, and longest dropped duration inside a message, in
/// microseconds: halfway between the initiation and the termination pulse. Anything
/// longer ends the message.
pub const INITIATION_MAX_US: u64 = (INITIATION_US + TERMINATION_US) / 2;

/// One step of the line: hold it high or low for `micros` microseconds.
#[derive(Clone, Copy, PartialEq, Eq, Debug, Structural)]
pub struct Step {
    pub high: bool,
    pub micros: u64,
}

/// Pulse width for one stream element: 1 is a long pulse, anything else a short one.
pub open spec fn pulse_width(bit: u32) -> u64 {
    if bit == 1 {
        LONG_PULSE_US
    } else {
        SHORT_PULSE_US
    }
}

/// The steps for the data bits: per bit a high pulse of its width, then the guard.
pub open spec fn bit_steps(bits: Seq<u32>) -> Seq<Step>
    decreases bits.len(),
{
    if bits.len() == 0 {
        Seq::empty()
    } else {
        bit_steps(bits.drop_last()) + seq![
            Step { high: true, micros: pulse_width(bits.last()) },
            Step { high: false, micros: GUARD_US },
        ]
    }
}

/// Initiation: low, the initiation pulse, low again.
pub open spec fn preamble() -> Seq<Step> {
    seq![
        Step { high: false, micros: LEAD_LOW_US },
        Step { high: true, micros: INITIATION_US },
        Step { high: false, micros: LEAD_LOW_US },
    ]
}

/// Termination: the termination pulse, then the line is left low.
pub open spec fn postamble() -> Seq<Step> {
    seq![Step { high: true, micros: TERMINATION_US }, Step { high: false, micros: 0 }]
}

/// The whole pulse train for a stream.
pub open spec fn pulse_plan(bits: Seq<u32>) -> Seq<Step> {
    preamble() + bit_steps(bits) + postamble()
}

/// The durations keep the order the receiver relies on: the guard is longer than a long
/// pulse, a long pulse longer than a short one, and the termination pulse longer than
/// the initiation pulse, which is longer than a long pulse.
pub proof fn lemma_pulse_widths_ordered()
    ensures
        GUARD_US > LONG_PULSE_US > SHORT_PULSE_US,
        TERMINATION_US > INITIATION_US > LONG_PULSE_US,
{
}

/// The steps that transmit `bits`: the initiation marker, one pulse per element and the
/// termination marker.
pub fn pulse_schedule(bits: &[u32]) -> (r: Vec<Step>)
    ensures
        r@ == pulse_plan(bits@),
{
    let mut steps: Vec<Step> = Vec::new();
    steps.push(Step { high: false, micros: LEAD_LOW_US });
    steps.push(Step { high: true, micros: INITIATION_US });
    steps.push(Step { high: false, micros: LEAD_LOW_US });
    assert(steps@ =~= preamble() + bit_steps(bits@.take(0)));
    let n = bits.len();
    let mut i: usize = 0;
    while i < n
        invariant
            n == bits@.len(),
            i <= n,
            steps@ == preamble() + bit_steps(bits@.take(i as int)),
        decreases n - i,
    {
        let width = if bits[i] == 1 {
            LONG_PULSE_US
        } else {
            SHORT_PULSE_US
        };
        steps.push(Step { high: true, micros: width });
        steps.push(Step { high: false, micros: GUARD_US });
        proof {
            let t = bits@.take(i + 1);
            assert(t.drop_last() =~= bits@.take(i as int));
            assert(steps@ =~= preamble() + bit_steps(t));
        }
        i += 1;
    }
    assert(bits@.take(n as int) =~= bits@);
    steps.push(Step { high: true, micros: TERMINATION_US });
    steps.push(Step { high: false, micros: 0 });
    assert(steps@ =~= pulse_plan(bits@));
    steps
}

/// How the receiver reads a duration once a message has begun.
#[derive(Clone, Copy, PartialEq, Eq, Debug, Structural)]
pub enum PulseClass {
    /// Zero, or between the data bands and the termination band (the guard, the low time
    /// around the initiation pulse): dropped.
    Noise,
    Zero,
    One,
    /// The termination marker.
    End,
}

pub open spec fn class_of(d: u64) -> PulseClass {
    if d == 0 {
        PulseClass::Noise
    } else if d <= SHORT_MAX_US {
        PulseClass::Zero
    } else if d <= LONG_MAX_US {
        PulseClass::One
    } else if d <= INITIATION_MAX_US {
        PulseClass::Noise
    } else {
        PulseClass::End
    }
}

/// A duration in the initiation band.
pub open spec fn is_initiation(d: u64) -> bool {
    INITIATION_MIN_US <= d <= INITIATION_MAX_US
}

/// Classifies a duration (microseconds) received inside a message.
pub fn classify(d: u64) -> (r: PulseClass)
    ensures
        r == class_of(d),
{
    if d == 0 {
        PulseClass::Noise
    } else if d <= SHORT_MAX_US {
        PulseClass::Zero
    } else if d <= LONG_MAX_US {
        PulseClass::One
    } else if d <= INITIATION_MAX_US {
        PulseClass::Noise
    } else {
        PulseClass::End
    }
}

/// Whether a duration (microseconds) is an initiation marker.
pub fn initiation(d: u64) -> (r: bool)
    ensures
        r == is_initiation(d),
{
    INITIATION_MIN_US <= d && d <= INITIATION_MAX_US
}

/// The receiver's state as a value: whether a message has begun, whether it has ended,
/// and the bits read so far.
pub struct RxState {
    pub receiving: bool,
    pub done: bool,
    pub bits: Seq<u32>,
}

/// The receiver before any duration.
pub open spec fn rx_start() -> RxState {
    RxState { receiving: false, done: false, bits: Seq::empty() }
}

/// One duration: before the message, anything but an initiation marker is ignored; in
/// it, short and long pulses add 0 and 1, noise is dropped and the termination marker
/// ends it; after it, nothing changes.
pub open spec fn rx_step(s: RxState, d: u64) -> RxState {
    if s.done {
        s
    } else if !s.receiving {
        if is_initiation(d) {
            RxState { receiving: true, ..s }
        } else {
            s
        }
    } else {
        match class_of(d) {
            PulseClass::Zero => RxState { bits: s.bits.push(0), ..s },
            PulseClass::One => RxState { bits: s.bits.push(1), ..s },
            PulseClass::Noise => s,
            PulseClass::End => RxState { done: true, ..s },
        }
    }
}

/// The receiver's state after a sequence of durations.
pub open spec fn rx_run(durations: Seq<u64>) -> RxState
    decreases durations.len(),
{
    if durations.len() == 0 {
        rx_start()
    } else {
        rx_step(rx_run(durations.drop_last()), durations.last())
    }
}

/// The bits of the message framed in `durations`, if its termination marker came.
pub open spec fn received_bits(durations: Seq<u64>) -> Option<Seq<u32>> {
    let s = rx_run(durations);
    if s.done {
        Some(s.bits)
    } else {
        None
    }
}

/// The pulse decoder: fed, one at a time, the time in microseconds between consecutive
/// edges of the line.
pub struct PulseDecoder {
    receiving: bool,
    done: bool,
    bits: Vec<u32>,
}

impl View for PulseDecoder {
    type V = RxState;

    closed spec fn view(&self) -> RxState {
        RxState { receiving: self.receiving, done: self.done, bits: self.bits@ }
    }
}

impl PulseDecoder {
    /// A decoder waiting for an initiation marker.
    pub fn new() -> (r: PulseDecoder)
        ensures
            r@ == rx_start(),
    {
        PulseDecoder { receiving: false, done: false, bits: Vec::new() }
    }

    /// Takes one duration (microseconds); returns whether the message has ended.
    pub fn feed(&mut self, duration_us: u64) -> (finished: bool)
        ensures
            final(self)@ == rx_step(old(self)@, duration_us),
            finished == final(self)@.done,
    {
        if self.done {
        } else if !self.receiving {
            if initiation(duration_us) {
                self.receiving = true;
            }
        } else {
            match classify(duration_us) {
                PulseClass::Zero => self.bits.push(0),
                PulseClass::One => self.bits.push(1),
                PulseClass::Noise => {},
                PulseClass::End => self.done = true,
            }
        }
        self.done
    }

    /// Whether the message has ended.
    pub fn is_done(&self) -> (r: bool)
        ensures
            r == self@.done,
    {
        self.done
    }

    /// The bits read so far.
    pub fn into_bits(self) -> (r: Vec<u32>)
        ensures
            r@ == self@.bits,
    {
        self.bits
    }
}

/// Decodes the message framed in a finite sequence of durations: `None` when no
/// termination marker follows an initiation marker.
pub fn decode_pulses(durations: &[u64]) -> (r: Option<Vec<u32>>)
    ensures
        match r {
            Some(v) => received_bits(durations@) == Some(v@),
            None => received_bits(durations@) is None,
        },
{
    let mut decoder = PulseDecoder::new();
    let n = durations.len();
    let mut i: usize = 0;
    assert(durations@.take(0) =~= Seq::<u64>::empty());
    while i < n
        invariant
            n == durations@.len(),
            i <= n,
            decoder@ == rx_run(durations@.take(i as int)),
        decreases n - i,
    {
        decoder.feed(durations[i]);
        assert(durations@.take(i + 1).drop_last() =~= durations@.take(i as int));
        i += 1;
    }
    assert(durations@.take(n as int) =~= durations@);
    if decoder.is_done() {
        Some(decoder.into_bits())
    } else {
        None
    }
}

/// The bit a data-band duration stands for.
pub open spec fn data_bit(d: u64) -> u32 {
    if d <= SHORT_MAX_US {
        0
    } else {
        1
    }
}

/// A duration in the short or the long data band.
pub open spec fn in_data_band(d: u64) -> bool {
    1 <= d <= LONG_MAX_US
}

proof fn lemma_rx_after_initiation(init: u64, data: Seq<u64>)
    requires
        is_initiation(init),
        forall|k: int| 0 <= k < data.len() ==> in_data_band(#[trigger] data[k]),
    ensures
        rx_run(seq![init] + data) == (RxState {
            receiving: true,
            done: false,
            bits: data.map_values(|d: u64| data_bit(d)),
        }),
    decreases data.len(),
{
    if data.len() == 0 {
        assert(seq![init] + data =~= seq![init]);
        assert(seq![init].drop_last() =~= Seq::<u64>::empty());
        assert(rx_run(Seq::<u64>::empty()) == rx_start());
        assert(seq![init].last() == init);
        assert(data.map_values(|d: u64| data_bit(d)) =~= Seq::<u32>::empty());
    } else {
        let shorter = data.drop_last();
        assert((seq![init] + data).drop_last() =~= seq![init] + shorter);
        assert(in_data_band(data[data.len() - 1]));
        lemma_rx_after_initiation(init, shorter);
        assert((seq![init] + data).last() == data.last());
        let d = data.last();
        assert(class_of(d) == if d <= SHORT_MAX_US { PulseClass::Zero } else { PulseClass::One });
        assert(data.map_values(|d: u64| data_bit(d)) =~= shorter.map_values(|d: u64| data_bit(d)).push(
            data_bit(data.last()),
        ));
    }
}

/// A duration sequence made of one initiation marker, data-band durations and one
/// termination marker decodes to one bit per data duration, in order: 0 for the short
/// band and 1 for the long band.
pub proof fn lemma_framed_pulses(init: u64, data: Seq<u64>, term: u64)
    requires
        is_initiation(init),
        forall|k: int| 0 <= k < data.len() ==> in_data_band(#[trigger] data[k]),
        term > INITIATION_MAX_US,
    ensures
        received_bits(seq![init] + data + seq![term]) == Some(
            data.map_values(|d: u64| data_bit(d)),
        ),
{
    lemma_rx_after_initiation(init, data);
    let all = seq![init] + data + seq![term];
    assert(all.drop_last() =~= seq![init] + data);
}

/// The durations of a pulse train, one per step.
pub open spec fn plan_durations(steps: Seq<Step>) -> Seq<u64> {
    steps.map_values(|s: Step| s.micros)
}

pub proof fn lemma_rx_run_push(s: Seq<u64>, d: u64)
    ensures
        rx_run(s.push(d)) == rx_step(rx_run(s), d),
{
    assert(s.push(d).drop_last() =~= s);
}

proof fn lemma_rx_plan_prefix(bits: Seq<u32>)
    requires
        forall|k: int| 0 <= k < bits.len() ==> #[trigger] bits[k] <= 1,
    ensures
        rx_run(plan_durations(preamble() + bit_steps(bits))) == (RxState {
            receiving: true,
            done: false,
            bits,
        }),
    decreases bits.len(),
{
    if bits.len() == 0 {
        assert(preamble() + bit_steps(bits) =~= preamble());
        let d = plan_durations(preamble());
        assert(d =~= Seq::<u64>::empty().push(LEAD_LOW_US).push(INITIATION_US).push(LEAD_LOW_US));
        lemma_rx_run_push(Seq::<u64>::empty(), LEAD_LOW_US);
        lemma_rx_run_push(Seq::<u64>::empty().push(LEAD_LOW_US), INITIATION_US);
        lemma_rx_run_push(Seq::<u64>::empty().push(LEAD_LOW_US).push(INITIATION_US), LEAD_LOW_US);
        assert(rx_run(Seq::<u64>::empty()) == rx_start());
        assert(bits =~= Seq::<u32>::empty());
    } else {
        let shorter = bits.drop_last();
        lemma_rx_plan_prefix(shorter);
        let b = bits.last();
        assert(b == bits[bits.len() - 1]);
        let w = pulse_width(b);
        let before = plan_durations(preamble() + bit_steps(shorter));
        assert(plan_durations(preamble() + bit_steps(bits)) =~= before.push(w).push(GUARD_US));
        lemma_rx_run_push(before, w);
        lemma_rx_run_push(before.push(w), GUARD_US);
        assert(SHORT_MAX_US == 17 && LONG_MAX_US == 37 && INITIATION_MAX_US == 750);
        assert(class_of(w) == if b == 0 { PulseClass::Zero } else { PulseClass::One });
        assert(class_of(GUARD_US) == PulseClass::Noise);
        assert(shorter.push(b) =~= bits);
    }
}

/// The receiver reads back what the sender sends: fed the durations of the pulse train
/// of a stream of 0 and 1 bits, the decoder ends the message with exactly those bits.
pub proof fn lemma_pulse_plan_round_trip(bits: Seq<u32>)
    requires
        forall|k: int| 0 <= k < bits.len() ==> #[trigger] bits[k] <= 1,
    ensures
        received_bits(plan_durations(pulse_plan(bits))) == Some(bits),
{
    lemma_rx_plan_prefix(bits);
    let before = plan_durations(preamble() + bit_steps(bits));
    assert(plan_durations(pulse_plan(bits)) =~= before.push(TERMINATION_US).push(0));
    lemma_rx_run_push(before, TERMINATION_US);
    lemma_rx_run_push(before.push(TERMINATION_US), 0);
}

} // verus!
