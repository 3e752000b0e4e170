//! Deriving an alert threshold from readings of a speaker's voice.
use crate::convert::of_int;
use crate::single::Single;
use vstd::prelude::*;
use vstd::relations::sorted_by;
use vstd::relations::total_ordering;
use vstd::seq_lib::group_to_multiset_ensures;
use vstd::seq_lib::lemma_sorted_unique;

verus! {

/// How long a calibration window stays open, in seconds.
pub const CALIBRATION_WINDOW_SECS: u64 = 10;

/// The pattern of 10: readings up to this are silence.
pub const SILENCE_FLOOR_DB: u32 = 0x4120_0000;

/// With fewer readings of speech than this there is nothing to go by.
pub const MIN_ACTIVE_SAMPLES: usize = 10;

/// The pattern of 60, the threshold where there is nothing to go by.
pub const CALIBRATION_FALLBACK_DB: u32 = 0x4270_0000;

/// The pattern of 40, the lowest threshold.
pub const MIN_THRESHOLD_DB: u32 = 0x4220_0000;

/// The pattern of 95, the highest threshold.
pub const MAX_THRESHOLD_DB: u32 = 0x42be_0000;

/// The pattern of 1: speech with a smaller deviation counts as level.
pub const LEVEL_SPEECH_DB: u32 = 0x3f80_0000;

/// The pattern of 3/2: standard deviations from the mean to the threshold.
pub const DEVIATIONS: u32 = 0x3fc0_0000;

/// The pattern nearest to 9/10: the share of readings below the threshold of
/// level speech.
pub const PERCENTILE: u32 = 0x3f66_6666;

/// How the threshold is derived from the readings.
#[derive(Clone, Copy, Debug, PartialEq, Eq, Structural)]
pub enum CalibMode {
    /// The speaker talks at an everyday volume, and the threshold is set above it.
    Normal,
    /// The speaker talks as loudly as should be allowed, and the threshold is set
    /// to the mean of that.
    Limit,
}

impl CalibMode {
    /// The mode that a name stands for: every name but `limit` is everyday speech.
    pub open spec fn named(name: Seq<char>) -> CalibMode {
        if name == "limit"@ {
            CalibMode::Limit
        } else {
            CalibMode::Normal
        }
    }

    /// The name of a mode.
    pub open spec fn name(self) -> Seq<char> {
        match self {
            CalibMode::Limit => "limit"@,
            CalibMode::Normal => "normal"@,
        }
    }

    /// The mode that a name stands for.
    pub fn from_name(name: &String) -> (r: CalibMode)
        ensures
            r == CalibMode::named(name@),
    {
        if *name == "limit".to_owned() {
            CalibMode::Limit
        } else {
            CalibMode::Normal
        }
    }

    /// The name of this mode.
    pub fn to_name(&self) -> (r: String)
        ensures
            r@ == self.name(),
    {
        match self {
            CalibMode::Limit => "limit".to_owned(),
            CalibMode::Normal => "normal".to_owned(),
        }
    }
}

/// A threshold and the figures that it comes from, all in dB.
#[derive(Clone, Copy, Debug, PartialEq, Eq, Structural)]
pub struct ThresholdStats {
    pub threshold: Single,
    pub mean: Single,
    pub std_dev: Single,
    pub min: Single,
    pub max: Single,
}

/// Whether a reading is of speech.
pub open spec fn is_speech(s: Single) -> bool {
    (Single { bits: SILENCE_FLOOR_DB }).below(s)
}

/// The readings of speech, in their order.
pub open spec fn speech(samples: Seq<Single>) -> Seq<Single> {
    samples.filter(|s: Single| is_speech(s))
}

/// The sum of readings, added from the first to the last.
pub open spec fn sum(s: Seq<Single>) -> Single
    decreases s.len(),
{
    if s.len() == 0 {
        Single { bits: 0 }
    } else {
        sum(s.drop_last()).plus(s.last())
    }
}

pub open spec fn mean(s: Seq<Single>) -> Single {
    sum(s).over(of_int(s.len() as int))
}

/// The sum of the squared distances from `m`, added from the first to the last.
pub open spec fn deviation_sum(s: Seq<Single>, m: Single) -> Single
    decreases s.len(),
{
    if s.len() == 0 {
        Single { bits: 0 }
    } else {
        let x = s.last().minus(m);
        deviation_sum(s.drop_last(), m).plus(x.times(x))
    }
}

pub open spec fn standard_deviation(s: Seq<Single>) -> Single {
    deviation_sum(s, mean(s)).over(of_int(s.len() as int)).root()
}

/// The order of bit patterns, which is that of the values from zero on.
pub open spec fn no_louder(a: Single, b: Single) -> bool {
    a.bits <= b.bits
}

/// Readings of speech from the quietest to the loudest.
pub open spec fn from_quiet_to_loud(s: Seq<Single>) -> Seq<Single> {
    s.sort_by(|a: Single, b: Single| no_louder(a, b))
}

/// The place, from the quietest on, of the reading that bounds nine tenths of `n`.
pub open spec fn percentile_index(n: nat) -> int {
    let i = of_int(n as int).times(Single { bits: PERCENTILE }).whole_part();
    if i < n - 1 {
        i as int
    } else {
        n - 1
    }
}

/// The threshold for some readings of speech, before it is held in its range: the
/// mean for the loudest speech allowed; for everyday speech 3/2 standard deviations
/// above the mean or, where it hardly varies, its 90th percentile.
pub open spec fn raw_threshold(s: Seq<Single>, mode: CalibMode) -> Single {
    match mode {
        CalibMode::Limit => mean(s),
        CalibMode::Normal => if standard_deviation(s).below(Single { bits: LEVEL_SPEECH_DB }) {
            from_quiet_to_loud(s)[percentile_index(s.len())]
        } else {
            mean(s).plus((Single { bits: DEVIATIONS }).times(standard_deviation(s)))
        },
    }
}

/// The threshold and its figures for a list of readings.
pub open spec fn threshold_stats(samples: Seq<Single>, mode: CalibMode) -> ThresholdStats {
    let s = speech(samples);
    if s.len() < MIN_ACTIVE_SAMPLES {
        ThresholdStats {
            threshold: Single { bits: CALIBRATION_FALLBACK_DB },
            mean: Single { bits: 0 },
            std_dev: Single { bits: 0 },
            min: Single { bits: 0 },
            max: Single { bits: 0 },
        }
    } else {
        ThresholdStats {
            threshold: raw_threshold(s, mode).clamped(
                Single { bits: MIN_THRESHOLD_DB },
                Single { bits: MAX_THRESHOLD_DB },
            ),
            mean: mean(s),
            std_dev: standard_deviation(s),
            min: from_quiet_to_loud(s)[0],
            max: from_quiet_to_loud(s).last(),
        }
    }
}

/// Keeps the readings of speech.
fn strip_silence(samples: &[Single]) -> (r: Vec<Single>)
    ensures
        r@ == speech(samples@),
{
    let floor: Single = Single { bits: SILENCE_FLOOR_DB };
    let mut r: Vec<Single> = Vec::new();
    let mut i: usize = 0;
    proof {
        assert(samples@.take(0).filter(|s: Single| is_speech(s)) =~= Seq::<Single>::empty()) by {
            reveal(Seq::filter);
        }
    }
    while i < samples.len()
        invariant
            i <= samples@.len(),
            floor.bits == SILENCE_FLOOR_DB,
            r@ == speech(samples@.take(i as int)),
        decreases samples@.len() - i,
    {
        let s: Single = samples[i];
        if floor.is_below(s) {
            r.push(s);
        }
        proof {
            let pred = |s: Single| is_speech(s);
            assert(samples@.take(i + 1) =~= samples@.take(i as int).push(s));
            samples@.take(i as int).lemma_filter_push(s, pred);
        }
        i = i + 1;
    }
    proof {
        assert(samples@.take(i as int) == samples@);
    }
    r
}

/// The order of bit patterns is total.
pub proof fn lemma_order_is_total()
    ensures
        total_ordering(|a: Single, b: Single| no_louder(a, b)),
{
}

/// Puts readings of speech in order.
fn sort(levels: &Vec<Single>) -> (r: Vec<Single>)
    ensures
        r@ == from_quiet_to_loud(levels@),
{
    let ghost leq = |a: Single, b: Single| no_louder(a, b);
    let mut r: Vec<Single> = Vec::new();
    let mut i: usize = 0;
    proof {
        assert(r@ =~= levels@.take(0));
    }
    while i < levels.len()
        invariant
            i <= levels@.len(),
            r@.len() == i,
            leq == (|a: Single, b: Single| no_louder(a, b)),
            sorted_by(r@, leq),
            r@.to_multiset() =~= levels@.take(i as int).to_multiset(),
        decreases levels@.len() - i,
    {
        let x: Single = levels[i];
        let mut low: usize = 0;
        let mut high: usize = i;
        while low < high
            invariant
                low <= high <= i,
                r@.len() == i,
                leq == (|a: Single, b: Single| no_louder(a, b)),
                sorted_by(r@, leq),
                forall|j: int| 0 <= j < low ==> no_louder(#[trigger] r@[j], x),
                forall|j: int| high <= j < i ==> no_louder(x, #[trigger] r@[j]),
            decreases high - low,
        {
            let middle: usize = low + (high - low) / 2;
            if r[middle].bits <= x.bits {
                proof {
                    assert forall|j: int| 0 <= j < middle + 1 implies no_louder(
                        #[trigger] r@[j],
                        x,
                    ) by {
                        if j < middle {
                            assert(leq(r@[j], r@[middle as int]));
                        }
                    }
                }
                low = middle + 1;
            } else {
                proof {
                    assert forall|j: int| middle <= j < i implies no_louder(
                        x,
                        #[trigger] r@[j],
                    ) by {
                        if middle < j {
                            assert(leq(r@[middle as int], r@[j]));
                        }
                    }
                }
                high = middle;
            }
        }
        let ghost before = r@;
        r.insert(low, x);
        proof {
            broadcast use group_to_multiset_ensures;

            assert(levels@.take(i + 1) =~= levels@.take(i as int).push(x));
            assert(r@ == before.insert(low as int, x));
            assert(sorted_by(r@, leq)) by {
                assert forall|a: int, b: int| 0 <= a < b < r@.len() implies #[trigger] leq(
                    r@[a],
                    r@[b],
                ) by {
                    let a0 = if a < low { a } else { a - 1 };
                    let b0 = if b < low { b } else { b - 1 };
                    if a != low && b != low {
                        assert(leq(before[a0], before[b0]));
                    }
                }
            }
        }
        i = i + 1;
    }
    proof {
        assert(levels@.take(i as int) == levels@);
        lemma_order_is_total();
        levels@.lemma_sort_by_ensures(leq);
        lemma_sorted_unique(r@, levels@.sort_by(leq), leq);
    }
    r
}

/// The mean of readings.
fn compute_mean(s: &Vec<Single>) -> (r: Single)
    ensures
        r == mean(s@),
{
    let mut total: Single = Single { bits: 0 };
    let mut i: usize = 0;
    while i < s.len()
        invariant
            i <= s@.len(),
            total == sum(s@.take(i as int)),
        decreases s@.len() - i,
    {
        total = total.add(s[i]);
        proof {
            assert(s@.take(i + 1).drop_last() == s@.take(i as int));
        }
        i = i + 1;
    }
    proof {
        assert(s@.take(i as int) == s@);
    }
    total.div(Single::from_usize(s.len()))
}

/// The standard deviation of readings with the mean `m`.
fn compute_deviation(s: &Vec<Single>, m: Single) -> (r: Single)
    requires
        m == mean(s@),
    ensures
        r == standard_deviation(s@),
{
    let mut total: Single = Single { bits: 0 };
    let mut i: usize = 0;
    while i < s.len()
        invariant
            i <= s@.len(),
            total == deviation_sum(s@.take(i as int), m),
        decreases s@.len() - i,
    {
        let x: Single = s[i].sub(m);
        total = total.add(x.mul(x));
        proof {
            assert(s@.take(i + 1).drop_last() == s@.take(i as int));
        }
        i = i + 1;
    }
    proof {
        assert(s@.take(i as int) == s@);
    }
    total.div(Single::from_usize(s.len())).sqrt()
}

/// Derives the alert threshold from the readings of a calibration window.
pub fn compute_threshold_stats(samples: &[Single], mode: &CalibMode) -> (r: ThresholdStats)
    ensures
        r == threshold_stats(samples@, *mode),
{
    let active: Vec<Single> = strip_silence(samples);
    let n: usize = active.len();
    if n < MIN_ACTIVE_SAMPLES {
        return ThresholdStats {
            threshold: Single { bits: CALIBRATION_FALLBACK_DB },
            mean: Single { bits: 0 },
            std_dev: Single { bits: 0 },
            min: Single { bits: 0 },
            max: Single { bits: 0 },
        };
    }
    let mean: Single = compute_mean(&active);
    let std_dev: Single = compute_deviation(&active, mean);
    let sorted: Vec<Single> = sort(&active);
    proof {
        broadcast use group_to_multiset_ensures;

        let leq = |a: Single, b: Single| no_louder(a, b);
        lemma_order_is_total();
        active@.lemma_sort_by_ensures(leq);
        assert(sorted@.len() == sorted@.to_multiset().len());
        assert(active@.len() == active@.to_multiset().len());
    }
    let raw: Single = match mode {
        CalibMode::Limit => mean,
        CalibMode::Normal => {
            if std_dev.is_below(Single { bits: LEVEL_SPEECH_DB }) {
                let i: usize = Single::from_usize(n).mul(Single { bits: PERCENTILE }).to_usize();
                if i < n - 1 {
                    sorted[i]
                } else {
                    sorted[n - 1]
                }
            } else {
                mean.add((Single { bits: DEVIATIONS }).mul(std_dev))
            }
        },
    };
    ThresholdStats {
        threshold: raw.clamp(
            Single { bits: MIN_THRESHOLD_DB },
            Single { bits: MAX_THRESHOLD_DB },
        ),
        mean,
        std_dev,
        min: sorted[0],
        max: sorted[n - 1],
    }
}

/// What a calibration run reports.
#[derive(Debug)]
pub struct CalibrationResult {
    /// Recommended alert threshold in dB, within 40 and 95.
    pub threshold: Single,
    /// Mean of the readings of speech.
    pub mean: Single,
    /// Standard deviation of the readings of speech.
    pub std_dev: Single,
    /// The quietest reading of speech.
    pub min: Single,
    /// The loudest reading of speech.
    pub max: Single,
    /// The name of the mode.
    pub mode: String,
}

impl CalibrationResult {
    /// The figures of the report.
    pub open spec fn stats(&self) -> ThresholdStats {
        ThresholdStats {
            threshold: self.threshold,
            mean: self.mean,
            std_dev: self.std_dev,
            min: self.min,
            max: self.max,
        }
    }
}

/// The collection window of a calibration run.
pub struct CalibrationState {
    /// Whether the window is open.
    pub active: bool,
    /// The readings of the window, in their order.
    pub samples: Vec<Single>,
}

/// A collection window as a mathematical value.
pub struct Window {
    pub active: bool,
    pub samples: Seq<Single>,
}

impl Window {
    /// The window after a request to open one: a new one, unless one is open.
    pub open spec fn opened(self) -> Window {
        if self.active {
            self
        } else {
            Window { active: true, samples: Seq::empty() }
        }
    }

    /// The window after a reading.
    pub open spec fn with(self, db: Single) -> Window {
        if self.active {
            Window { samples: self.samples.push(db), ..self }
        } else {
            self
        }
    }

    /// The window after a series of readings.
    pub open spec fn with_all(self, dbs: Seq<Single>) -> Window
        decreases dbs.len(),
    {
        if dbs.len() == 0 {
            self
        } else {
            self.with_all(dbs.drop_last()).with(dbs.last())
        }
    }

    /// The window after its end.
    pub open spec fn closed(self) -> Window {
        Window { active: false, ..self }
    }
}

impl View for CalibrationState {
    type V = Window;

    open spec fn view(&self) -> Window {
        Window { active: self.active, samples: self.samples@ }
    }
}

impl CalibrationState {
    /// No window has been opened yet.
    pub fn new() -> (r: CalibrationState)
        ensures
            r@ == (Window { active: false, samples: Seq::empty() }),
    {
        CalibrationState { active: false, samples: Vec::new() }
    }

    /// Opens an empty window and returns true; while one is open this does nothing
    /// and returns false.
    pub fn open_window(&mut self) -> (opened: bool)
        ensures
            opened == !old(self)@.active,
            final(self)@ == old(self)@.opened(),
    {
        if self.active {
            false
        } else {
            self.active = true;
            self.samples.clear();
            true
        }
    }

    /// Takes a reading into the window, if one is open.
    pub fn record(&mut self, db: Single)
        ensures
            final(self)@ == old(self)@.with(db),
    {
        if self.active {
            self.samples.push(db);
        }
    }

    /// Closes the window and reports on its readings.
    pub fn close_window(&mut self, mode: &CalibMode) -> (r: CalibrationResult)
        ensures
            final(self)@ == old(self)@.closed(),
            r.stats() == threshold_stats(old(self)@.samples, *mode),
            r.mode@ == mode.name(),
    {
        self.active = false;
        let stats: ThresholdStats = compute_threshold_stats(self.samples.as_slice(), mode);
        CalibrationResult {
            threshold: stats.threshold,
            mean: stats.mean,
            std_dev: stats.std_dev,
            min: stats.min,
            max: stats.max,
            mode: mode.to_name(),
        }
    }
}

} // verus!
