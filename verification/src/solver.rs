//! The runtime solver: the bank of discrete per-mode models, the input and
//! output vectors, and the typed routing of slices through named groups.

use vstd::prelude::*;

verus! {

use vstd::string::StringExecFns;

use crate::matrix::Mat;

/// A selected group of the model, with its half-open range into the
/// assembled input or output vector.
#[derive(Debug)]
pub struct SplitFem {
    /// The group's name.
    pub name: String,
    /// First position of the group's slice.
    pub start: usize,
    /// One past the last position of the group's slice.
    pub end: usize,
}

impl SplitFem {
    /// A descriptor for the named group, with an empty range.
    pub fn new(name: String) -> (r: SplitFem)
        ensures
            r.name == name,
            r.start == 0,
            r.end == 0,
    {
        SplitFem { name, start: 0, end: 0 }
    }

    /// The name of the group the descriptor stands for.
    pub fn fem_type(&self) -> (r: String)
        ensures
            r == self.name,
    {
        self.name.clone()
    }
}

/// Anything carrying a half-open range that the builder assigns.
pub trait SetRange {
    /// The range held.
    spec fn range_spec(&self) -> (usize, usize);

    /// Assigns the range.
    fn set_range(&mut self, start: usize, end: usize)
        ensures
            final(self).range_spec() == (start, end),
    ;
}

impl SetRange for SplitFem {
    open spec fn range_spec(&self) -> (usize, usize) {
        (self.start, self.end)
    }

    fn set_range(&mut self, start: usize, end: usize)
        ensures
            final(self).name == old(self).name,
    {
        self.start = start;
        self.end = end;
    }
}

/// One retained mode: its eigen frequency (Hz) and damping ratio, its modal
/// input row `b` and output column `c`, and the discrete model that the
/// zero-order-hold discretization fills in: the 2-by-2 transition `phi`
/// (row-major), the input gain `gamma`, and the 2-vector state `x`.
/// All scalars are IEEE-754 binary64 words.
#[derive(Debug)]
pub struct Exponential {
    /// Sample period in seconds.
    pub tau: u64,
    /// Eigen frequency in Hz.
    pub omega_hz: u64,
    /// Damping ratio.
    pub zeta: u64,
    /// Discrete 2-by-2 transition matrix, row-major.
    pub phi: (u64, u64, u64, u64),
    /// Discrete 2-by-1 input gain.
    pub gamma: (u64, u64),
    /// Modal input row, one word per enabled input degree of freedom.
    pub b: Vec<u64>,
    /// Modal output column, one word per enabled output degree of freedom.
    pub c: Vec<u64>,
    /// Internal 2-vector state.
    pub x: (u64, u64),
    /// Scratch output vector.
    pub y: Vec<u64>,
}

impl Exponential {
    /// A mode with the given data, at rest and not yet discretized: `tau`,
    /// `phi`, `gamma` and `x` are zero words until the discretization fills
    /// them in.
    pub fn from_modal(omega_hz: u64, zeta: u64, b: Vec<u64>, c: Vec<u64>) -> (r: Exponential)
        ensures
            r.tau == 0u64,
            r.omega_hz == omega_hz,
            r.zeta == zeta,
            r.b == b,
            r.c == c,
            r.phi == (0u64, 0u64, 0u64, 0u64),
            r.gamma == (0u64, 0u64),
            r.x == (0u64, 0u64),
            r.y@.len() == c@.len(),
            forall|j: int| 0 <= j < r.y@.len() ==> r.y@[j] == 0u64,
    {
        let n = c.len();
        let mut y: Vec<u64> = Vec::new();
        let mut j: usize = 0;
        while j < n
            invariant
                0 <= j <= n,
                y@.len() == j,
                forall|q: int| 0 <= q < j ==> y@[q] == 0u64,
            decreases n - j,
        {
            y.push(0u64);
            j = j + 1;
        }
        Exponential {
            tau: 0u64,
            omega_hz,
            zeta,
            phi: (0u64, 0u64, 0u64, 0u64),
            gamma: (0u64, 0u64),
            b,
            c,
            x: (0u64, 0u64),
            y,
        }
    }

    /// How many input degrees of freedom the mode reads.
    pub fn n_inputs(&self) -> (r: usize)
        ensures
            r == self.b@.len(),
    {
        self.b.len()
    }

    /// How many output degrees of freedom the mode drives.
    pub fn n_outputs(&self) -> (r: usize)
        ensures
            r == self.c@.len(),
    {
        self.c.len()
    }
}

/// A vector of `n` zero words.
pub fn zero_words(n: usize) -> (r: Vec<u64>)
    ensures
        r@.len() == n,
        forall|j: int| 0 <= j < n ==> r@[j] == 0u64,
{
    let mut v: Vec<u64> = Vec::new();
    let mut k: usize = 0;
    while k < n
        invariant
            0 <= k <= n,
            v@.len() == k,
            forall|q: int| 0 <= q < k ==> v@[q] == 0u64,
        decreases n - k,
    {
        v.push(0u64);
        k = k + 1;
    }
    v
}

/// Whether `k` is the first descriptor of the sequence with the given name.
pub open spec fn first_range_at(s: Seq<SplitFem>, name: Seq<char>, k: int) -> bool {
    &&& 0 <= k < s.len()
    &&& s[k].name@ == name
    &&& forall|j: int| 0 <= j < k ==> (#[trigger] s[j].name)@ != name
}

/// Whether some descriptor of the sequence has the given name.
pub open spec fn has_range(s: Seq<SplitFem>, name: Seq<char>) -> bool {
    exists|k: int| 0 <= k < s.len() && (#[trigger] s[k].name)@ == name
}

/// The descriptors tile `[0, total)` without gaps, in order.
pub open spec fn ranges_contiguous(s: Seq<SplitFem>, total: nat) -> bool {
    &&& forall|k: int| 0 <= k < s.len() ==> (#[trigger] s[k]).start <= s[k].end <= total
    &&& forall|k: int| 0 < k < s.len() ==> (#[trigger] s[k]).start == s[k - 1].end
    &&& if s.len() == 0 {
        total == 0
    } else {
        s[0].start == 0 && s[s.len() - 1].end == total
    }
}

/// Finds the first descriptor with the given name.
fn find_range(s: &Vec<SplitFem>, name: &String) -> (r: Option<usize>)
    ensures
        match r {
            Some(k) => first_range_at(s@, name@, k as int),
            None => !has_range(s@, name@),
        },
{
    let mut k: usize = 0;
    while k < s.len()
        invariant
            0 <= k <= s@.len(),
            forall|j: int| 0 <= j < k ==> (#[trigger] s@[j].name)@ != name@,
        decreases s.len() - k,
    {
        if s[k].name == *name {
            return Some(k);
        }
        k = k + 1;
    }
    None
}

/// The discrete modal solver: the input vector `u`, the output vector `y`,
/// one `Exponential` per retained mode, the selected group descriptors, and
/// the optional static-gain compensation.
#[derive(Debug)]
pub struct DiscreteModalSolver {
    /// Model input vector, one word per enabled input degree of freedom.
    pub u: Vec<u64>,
    /// Model output vector, one word per enabled output degree of freedom.
    pub y: Vec<u64>,
    /// The retained modes.
    pub state_space: Vec<Exponential>,
    /// Static-gain correction matrix, shape `[y.len(), u.len()]`.
    pub psi_dcg: Option<Mat>,
    /// The correction of the previous sample, applied one tick late.
    pub psi_times_u: Vec<u64>,
    /// The selected input groups, with their ranges into `u`.
    pub ins: Vec<SplitFem>,
    /// The selected output groups, with their ranges into `y`.
    pub outs: Vec<SplitFem>,
    /// The trimmed static gain, kept for the compensation path.
    pub static_gain: Option<Mat>,
    /// A pending Hankel-singular-value truncation threshold.
    pub hsv_threshold: Option<u64>,
    /// The sampling rate in Hz.
    pub sampling_rate: u64,
}

impl DiscreteModalSolver {
    /// Shape invariants: the group ranges tile `u` and `y`, every mode spans
    /// them, and the compensation matrices match their shape.
    pub open spec fn wf(&self) -> bool {
        &&& ranges_contiguous(self.ins@, self.u@.len())
        &&& ranges_contiguous(self.outs@, self.y@.len())
        &&& forall|k: int|
            0 <= k < self.state_space@.len() ==> (#[trigger] self.state_space@[k]).b@.len()
                == self.u@.len() && self.state_space@[k].c@.len() == self.y@.len()
        &&& match self.psi_dcg {
            Some(m) => m.wf() && m.rows_spec() == self.y@.len() && m.cols_spec() == self.u@.len(),
            None => true,
        }
        &&& self.psi_times_u@.len() == self.y@.len()
        &&& match self.hsv_threshold {
            Some(w) => crate::nonneg_finite_word(w),
            None => true,
        }
        &&& match self.static_gain {
            Some(m) => m.wf() && m.rows_spec() == self.y@.len() && m.cols_spec() == self.u@.len(),
            None => true,
        }
    }

    /// Copies the values into the `u`-slice of the named input group; a name
    /// that no selected input group carries leaves the solver unchanged.
    pub fn set(&mut self, name: &String, values: &[u64])
        requires
            old(self).wf(),
            forall|k: int|
                first_range_at(old(self).ins@, name@, k) ==> values@.len() == old(self).ins@[k].end
                    - old(self).ins@[k].start,
        ensures
            final(self).wf(),
            final(self).u@.len() == old(self).u@.len(),
            !has_range(old(self).ins@, name@) ==> final(self).u == old(self).u,
            forall|k: int|
                first_range_at(old(self).ins@, name@, k) ==> forall|i: int|
                    0 <= i < old(self).u@.len() ==> final(self).u@[i] == (if old(
                        self,
                    ).ins@[k].start <= i < old(self).ins@[k].end {
                        values@[i - old(self).ins@[k].start]
                    } else {
                        old(self).u@[i]
                    }),
            final(self).y == old(self).y,
            final(self).state_space == old(self).state_space,
            final(self).psi_dcg == old(self).psi_dcg,
            final(self).psi_times_u == old(self).psi_times_u,
            final(self).ins == old(self).ins,
            final(self).outs == old(self).outs,
            final(self).static_gain == old(self).static_gain,
            final(self).hsv_threshold == old(self).hsv_threshold,
            final(self).sampling_rate == old(self).sampling_rate,
    {
        match find_range(&self.ins, name) {
            Some(k) => {
                let start = self.ins[k].start;
                let end = self.ins[k].end;
                let mut i: usize = start;
                while i < end
                    invariant
                        first_range_at(self.ins@, name@, k as int),
                        self.ins@[k as int].start == start,
                        self.ins@[k as int].end == end,
                        start <= i <= end,
                        end <= self.u@.len(),
                        values@.len() == end - start,
                        self.u@.len() == old(self).u@.len(),
                        forall|q: int|
                            0 <= q < self.u@.len() ==> self.u@[q] == (if start <= q < i {
                                values@[q - start]
                            } else {
                                old(self).u@[q]
                            }),
                        self.y == old(self).y,
                        self.state_space == old(self).state_space,
                        self.psi_dcg == old(self).psi_dcg,
                        self.psi_times_u == old(self).psi_times_u,
                        self.ins == old(self).ins,
                        self.outs == old(self).outs,
                        self.static_gain == old(self).static_gain,
                        self.hsv_threshold == old(self).hsv_threshold,
                        self.sampling_rate == old(self).sampling_rate,
                    decreases end - i,
                {
                    let w = values[i - start];
                    self.u.set(i, w);
                    i = i + 1;
                }
            },
            None => {},
        }
    }

    /// A copy of the `y`-slice of the named output group, or nothing when no
    /// selected output group carries the name.
    pub fn get(&self, name: &String) -> (r: Option<Vec<u64>>)
        requires
            self.wf(),
        ensures
            r is Some <==> has_range(self.outs@, name@),
            forall|k: int|
                first_range_at(self.outs@, name@, k) ==> match r {
                    Some(v) => v@ == self.y@.subrange(
                        self.outs@[k].start as int,
                        self.outs@[k].end as int,
                    ),
                    None => false,
                },
    {
        match find_range(&self.outs, name) {
            Some(k) => {
                let start = self.outs[k].start;
                let end = self.outs[k].end;
                let mut out: Vec<u64> = Vec::new();
                let mut i: usize = start;
                while i < end
                    invariant
                        start <= i <= end,
                        end <= self.y@.len(),
                        out@.len() == i - start,
                        forall|q: int|
                            0 <= q < out@.len() ==> out@[q] == self.y@[start + q],
                    decreases end - i,
                {
                    let w = self.y[i];
                    out.push(w);
                    i = i + 1;
                }
                proof {
                    assert(out@ =~= self.y@.subrange(start as int, end as int));
                }
                Some(out)
            },
            None => None,
        }
    }
}

/// The modes whose Hankel singular value lies strictly above the threshold,
/// in order; value and mode sequences are walked together.
pub open spec fn retained(modes: Seq<Exponential>, hsv: Seq<u64>, t: u64) -> Seq<Exponential>
    decreases modes.len(),
{
    if modes.len() == 0 {
        Seq::empty()
    } else {
        (if hsv[0] > t {
            seq![modes[0]]
        } else {
            Seq::empty()
        }) + retained(modes.skip(1), hsv.skip(1), t)
    }
}

/// Peeling one mode off the end of the prefix appends its contribution.
pub proof fn lemma_retained_snoc(modes: Seq<Exponential>, hsv: Seq<u64>, t: u64, i: int)
    requires
        modes.len() == hsv.len(),
        0 <= i < modes.len(),
    ensures
        retained(modes.take(i + 1), hsv.take(i + 1), t) == retained(modes.take(i), hsv.take(i), t)
            + (if hsv[i] > t {
            seq![modes[i]]
        } else {
            Seq::<Exponential>::empty()
        }),
    decreases i,
{
    if i == 0 {
        assert(modes.take(1).skip(1) =~= Seq::<Exponential>::empty());
        assert(hsv.take(1).skip(1) =~= Seq::<u64>::empty());
        assert(modes.take(0) =~= Seq::<Exponential>::empty());
        assert(hsv.take(0) =~= Seq::<u64>::empty());
        assert(retained(modes.take(1), hsv.take(1), t) =~= retained(modes.take(0), hsv.take(0), t)
            + (if hsv[0] > t {
            seq![modes[0]]
        } else {
            Seq::<Exponential>::empty()
        }));
    } else {
        lemma_retained_snoc(modes.skip(1), hsv.skip(1), t, i - 1);
        assert(modes.take(i + 1).skip(1) =~= modes.skip(1).take(i));
        assert(hsv.take(i + 1).skip(1) =~= hsv.skip(1).take(i));
        assert(modes.take(i).skip(1) =~= modes.skip(1).take(i - 1));
        assert(hsv.take(i).skip(1) =~= hsv.skip(1).take(i - 1));
        assert(modes.skip(1)[i - 1] == modes[i]);
        assert(hsv.skip(1)[i - 1] == hsv[i]);
        assert(retained(modes.take(i + 1), hsv.take(i + 1), t) =~= retained(
            modes.take(i),
            hsv.take(i),
            t,
        ) + (if hsv[i] > t {
            seq![modes[i]]
        } else {
            Seq::<Exponential>::empty()
        }));
    }
}

/// Every retained mode is one of the original modes.
pub proof fn lemma_retained_from(modes: Seq<Exponential>, hsv: Seq<u64>, t: u64)
    requires
        modes.len() == hsv.len(),
    ensures
        forall|k: int|
            0 <= k < retained(modes, hsv, t).len() ==> exists|j: int|
                0 <= j < modes.len() && #[trigger] retained(modes, hsv, t)[k] == modes[j],
    decreases modes.len(),
{
    if modes.len() > 0 {
        lemma_retained_from(modes.skip(1), hsv.skip(1), t);
        let head = if hsv[0] > t {
            seq![modes[0]]
        } else {
            Seq::<Exponential>::empty()
        };
        assert forall|k: int| 0 <= k < retained(modes, hsv, t).len() implies exists|j: int|
            0 <= j < modes.len() && #[trigger] retained(modes, hsv, t)[k] == modes[j] by {
            if k < head.len() {
                assert(retained(modes, hsv, t)[k] == modes[0]);
            } else {
                let tail = retained(modes.skip(1), hsv.skip(1), t);
                assert(retained(modes, hsv, t)[k] == tail[k - head.len()]);
                let j = choose|j: int|
                    0 <= j < modes.skip(1).len() && tail[k - head.len()] == modes.skip(1)[j];
                assert(retained(modes, hsv, t)[k] == modes[j + 1]);
            }
        }
    }
}

/// Whether the entry at output row `j`, input column `i` couples a
/// drive-torque group to its matching encoder-angle group.
pub open spec fn pair_masked(
    ins: Seq<SplitFem>,
    outs: Seq<SplitFem>,
    j: int,
    i: int,
    tname: Seq<char>,
    ename: Seq<char>,
) -> bool {
    exists|a: int, b: int|
        #[trigger] first_range_at(ins, tname, a) && #[trigger] first_range_at(outs, ename, b)
            && ins[a].start <= i < ins[a].end && outs[b].start <= j < outs[b].end
}

/// Whether the entry couples any of the three mount drive-torque groups to
/// its matching encoder-angle group.
pub open spec fn dc_masked(ins: Seq<SplitFem>, outs: Seq<SplitFem>, j: int, i: int) -> bool {
    ||| pair_masked(ins, outs, j, i, "OSS_AzDrive_Torque"@, "OSS_AzEncoder_Angle"@)
    ||| pair_masked(ins, outs, j, i, "OSS_ElDrive_Torque"@, "OSS_ElEncoder_Angle"@)
    ||| pair_masked(ins, outs, j, i, "OSS_RotDrive_Torque"@, "OSS_RotEncoder_Angle"@)
}

/// Zeroes the block coupling the named input group to the named output
/// group, when both are selected; every other entry is kept.
fn mask_pair(
    m: &mut Mat,
    ins: &Vec<SplitFem>,
    outs: &Vec<SplitFem>,
    tname: &String,
    ename: &String,
)
    requires
        old(m).wf(),
        ranges_contiguous(ins@, old(m).cols_spec() as nat),
        ranges_contiguous(outs@, old(m).rows_spec() as nat),
    ensures
        final(m).wf(),
        final(m).rows_spec() == old(m).rows_spec(),
        final(m).cols_spec() == old(m).cols_spec(),
        forall|j: int, i: int|
            0 <= j < old(m).rows_spec() && 0 <= i < old(m).cols_spec() ==> #[trigger] final(m).at(
                j,
                i,
            ) == (if pair_masked(ins@, outs@, j, i, tname@, ename@) {
                0u64
            } else {
                old(m).at(j, i)
            }),
{
    let ta = find_range(ins, tname);
    let eb = find_range(outs, ename);
    match (ta, eb) {
        (Some(a), Some(b)) => {
            let c0 = ins[a].start;
            let c1 = ins[a].end;
            let r0 = outs[b].start;
            let r1 = outs[b].end;
            m.zero_block(r0, r1, c0, c1);
            proof {
                assert forall|j: int, i: int|
                    0 <= j < old(m).rows_spec() && 0 <= i < old(m).cols_spec() implies #[trigger] m.at(
                    j,
                    i,
                ) == (if pair_masked(ins@, outs@, j, i, tname@, ename@) {
                    0u64
                } else {
                    old(m).at(j, i)
                }) by {
                    if pair_masked(ins@, outs@, j, i, tname@, ename@) {
                        let (aa, bb) = choose|aa: int, bb: int|
                            #[trigger] first_range_at(ins@, tname@, aa) && #[trigger] first_range_at(
                                outs@,
                                ename@,
                                bb,
                            ) && ins@[aa].start <= i < ins@[aa].end && outs@[bb].start <= j
                                < outs@[bb].end;
                        assert(aa == a as int);
                        assert(bb == b as int);
                    } else {
                        if r0 <= j < r1 && c0 <= i < c1 {
                            assert(first_range_at(ins@, tname@, a as int));
                            assert(first_range_at(outs@, ename@, b as int));
                            assert(pair_masked(ins@, outs@, j, i, tname@, ename@));
                        }
                    }
                }
            }
        },
        _ => {
            proof {
                assert forall|j: int, i: int|
                    0 <= j < old(m).rows_spec() && 0 <= i < old(m).cols_spec() implies !pair_masked(
                    ins@,
                    outs@,
                    j,
                    i,
                    tname@,
                    ename@,
                ) by {
                    if pair_masked(ins@, outs@, j, i, tname@, ename@) {
                        let (aa, bb) = choose|aa: int, bb: int|
                            #[trigger] first_range_at(ins@, tname@, aa) && #[trigger] first_range_at(
                                outs@,
                                ename@,
                                bb,
                            ) && ins@[aa].start <= i < ins@[aa].end && outs@[bb].start <= j
                                < outs@[bb].end;
                        assert(has_range(ins@, tname@) && has_range(outs@, ename@));
                    }
                }
            }
        },
    }
}

impl DiscreteModalSolver {
    /// Drops the modes whose Hankel singular value lies at or below the
    /// pending threshold; without a pending threshold the bank is kept.
    /// `hsv` carries one non-negative finite value word per mode, in mode
    /// order, so that the word comparison against the threshold is the
    /// numeric one.
    pub fn retain_modes(&mut self, hsv: &[u64])
        requires
            old(self).wf(),
            hsv@.len() == old(self).state_space@.len(),
            forall|t: int|
                0 <= t < hsv@.len() ==> crate::nonneg_finite_word(#[trigger] hsv@[t]),
        ensures
            final(self).wf(),
            match old(self).hsv_threshold {
                Some(t) => final(self).state_space@ == retained(
                    old(self).state_space@,
                    hsv@,
                    t,
                ),
                None => final(self).state_space == old(self).state_space,
            },
            final(self).u == old(self).u,
            final(self).y == old(self).y,
            final(self).psi_dcg == old(self).psi_dcg,
            final(self).psi_times_u == old(self).psi_times_u,
            final(self).ins == old(self).ins,
            final(self).outs == old(self).outs,
            final(self).static_gain == old(self).static_gain,
            final(self).hsv_threshold == old(self).hsv_threshold,
            final(self).sampling_rate == old(self).sampling_rate,
    {
        let t = match &self.hsv_threshold {
            Some(t) => *t,
            None => {
                return ;
            },
        };
        let ghost orig = self.state_space@;
        let mut rev: Vec<Exponential> = Vec::new();
        while self.state_space.len() > 0
            invariant
                self.state_space@ == orig.take(self.state_space@.len() as int),
                rev@.len() + self.state_space@.len() == orig.len(),
                forall|j: int|
                    0 <= j < rev@.len() ==> #[trigger] rev@[j] == orig[orig.len() - 1 - j],
                self.u == old(self).u,
                self.y == old(self).y,
                self.psi_dcg == old(self).psi_dcg,
                self.psi_times_u == old(self).psi_times_u,
                self.ins == old(self).ins,
                self.outs == old(self).outs,
                self.static_gain == old(self).static_gain,
                self.hsv_threshold == old(self).hsv_threshold,
                self.sampling_rate == old(self).sampling_rate,
            decreases self.state_space.len(),
        {
            let x = self.state_space.pop().unwrap();
            proof {
                assert(orig.take(self.state_space@.len() as int + 1).drop_last() =~= orig.take(
                    self.state_space@.len() as int,
                ));
            }
            rev.push(x);
        }
        let mut out: Vec<Exponential> = Vec::new();
        let mut i: usize = 0;
        while rev.len() > 0
            invariant
                orig.len() == hsv@.len(),
                i + rev@.len() == orig.len(),
                0 <= i <= orig.len(),
                forall|j: int|
                    0 <= j < rev@.len() ==> #[trigger] rev@[j] == orig[orig.len() - 1 - j],
                out@ == retained(orig.take(i as int), hsv@.take(i as int), t),
            decreases rev.len(),
        {
            proof {
                lemma_retained_snoc(orig, hsv@, t, i as int);
            }
            let x = rev.pop().unwrap();
            let keep = hsv[i] > t;
            if keep {
                out.push(x);
            }
            i = i + 1;
        }
        proof {
            assert(orig.take(orig.len() as int) =~= orig);
            assert(hsv@.take(hsv@.len() as int) =~= hsv@);
            lemma_retained_from(orig, hsv@, t);
        }
        self.state_space = out;
        proof {
            assert forall|k: int|
                0 <= k < self.state_space@.len() implies (#[trigger] self.state_space@[k]).b@.len()
                == self.u@.len() && self.state_space@[k].c@.len() == self.y@.len() by {
                let j = choose|j: int|
                    0 <= j < orig.len() && #[trigger] retained(orig, hsv@, t)[k] == orig[j];
                assert(old(self).state_space@[j].b@.len() == old(self).u@.len());
            }
        }
    }

    /// Installs the static-gain correction matrix, zeroing the blocks that
    /// couple each mount drive-torque input group to its matching
    /// encoder-angle output group: those loops are closed by a separate
    /// controller and must receive no extra DC coupling.
    pub fn set_dc_compensation(&mut self, psi: Mat)
        requires
            old(self).wf(),
            psi.wf(),
            psi.rows_spec() == old(self).y@.len(),
            psi.cols_spec() == old(self).u@.len(),
        ensures
            final(self).wf(),
            final(self).psi_dcg matches Some(m) && m.wf() && m.rows_spec() == old(self).y@.len()
                && m.cols_spec() == old(self).u@.len() && forall|j: int, i: int|
                0 <= j < old(self).y@.len() && 0 <= i < old(self).u@.len() ==> #[trigger] m.at(j, i)
                    == (if dc_masked(old(self).ins@, old(self).outs@, j, i) {
                    0u64
                } else {
                    psi.at(j, i)
                }),
            final(self).u == old(self).u,
            final(self).y == old(self).y,
            final(self).state_space == old(self).state_space,
            final(self).psi_times_u == old(self).psi_times_u,
            final(self).ins == old(self).ins,
            final(self).outs == old(self).outs,
            final(self).static_gain == old(self).static_gain,
            final(self).hsv_threshold == old(self).hsv_threshold,
            final(self).sampling_rate == old(self).sampling_rate,
    {
        let mut m = psi;
        let az_t = String::from_str("OSS_AzDrive_Torque");
        let az_e = String::from_str("OSS_AzEncoder_Angle");
        let el_t = String::from_str("OSS_ElDrive_Torque");
        let el_e = String::from_str("OSS_ElEncoder_Angle");
        let rot_t = String::from_str("OSS_RotDrive_Torque");
        let rot_e = String::from_str("OSS_RotEncoder_Angle");
        mask_pair(&mut m, &self.ins, &self.outs, &az_t, &az_e);
        mask_pair(&mut m, &self.ins, &self.outs, &el_t, &el_e);
        mask_pair(&mut m, &self.ins, &self.outs, &rot_t, &rot_e);
        self.psi_dcg = Some(m);
    }
}

/// Routing a slice into a selected group's range of a vector and reading
/// the range back yields the slice unchanged, bit for bit: `set` writes
/// exactly the group's range and `get` copies exactly that range, so the
/// round trip is the identity on the slice, whatever the rest of the vector
/// holds.
pub proof fn lemma_route_round_trip(u: Seq<u64>, start: int, end: int, v: Seq<u64>)
    requires
        0 <= start <= end <= u.len(),
        v.len() == end - start,
    ensures
        Seq::new(
            u.len(),
            |i: int|
                if start <= i < end {
                    v[i - start]
                } else {
                    u[i]
                },
        ).subrange(start, end) == v,
{
    assert(Seq::new(
        u.len(),
        |i: int|
            if start <= i < end {
                v[i - start]
            } else {
                u[i]
            },
    ).subrange(start, end) =~= v);
}

} // verus!
