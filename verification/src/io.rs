//! Degrees of freedom of the model and their on/off state.

use vstd::prelude::*;

verus! {

/// Metadata attached to one degree of freedom.  Scalar-valued entries are
/// IEEE-754 binary64 words (see the crate documentation).
#[derive(Debug, Clone, Default)]
pub struct Properties {
    pub node_id: Option<Vec<u32>>,
    pub cs_label: Option<String>,
    pub cs_number: Option<Vec<u32>>,
    pub coefficients: Option<Vec<u64>>,
    pub location: Option<Vec<u64>>,
    pub component: Option<Vec<i32>>,
    pub components: Option<Vec<u64>>,
    pub area: Option<Vec<u64>>,
}

/// One degree of freedom: a description, the 1-based global indices it
/// occupies in the modal matrices, and its metadata.
#[derive(Debug, Clone, Default)]
pub struct IOData {
    pub types: String,
    pub excite_ids: Option<Vec<u32>>,
    pub descriptions: String,
    pub indices: Vec<u32>,
    pub properties: Properties,
}

/// A degree of freedom in one of two states: enabled (`On`) or disabled (`Off`).
#[derive(Debug, Clone)]
pub enum IO {
    On(IOData),
    Off(IOData),
}

impl IO {
    /// The payload, whichever the state.
    pub open spec fn data_spec(&self) -> IOData {
        match self {
            IO::On(d) => *d,
            IO::Off(d) => *d,
        }
    }

    /// Whether the degree of freedom is enabled.
    pub open spec fn is_on_spec(&self) -> bool {
        self is On
    }

    /// Disables the degree of freedom; the payload is kept.
    pub fn switch_off(self) -> (r: IO)
        ensures
            r == IO::Off(self.data_spec()),
    {
        match self {
            IO::On(data) => IO::Off(data),
            IO::Off(data) => IO::Off(data),
        }
    }

    /// Enables the degree of freedom; the payload is kept.
    pub fn switch_on(self) -> (r: IO)
        ensures
            r == IO::On(self.data_spec()),
    {
        match self {
            IO::Off(data) => IO::On(data),
            IO::On(data) => IO::On(data),
        }
    }

    /// Enables a disabled degree of freedom when its payload satisfies the
    /// predicate; an enabled one is left as it is.
    pub fn switch_on_by<F: Fn(&IOData) -> bool>(self, pred: F) -> (r: IO)
        requires
            forall|d: &IOData| #[trigger] call_requires(pred, (d,)),
        ensures
            r.data_spec() == self.data_spec(),
            self.is_on_spec() ==> r.is_on_spec(),
            !self.is_on_spec() && r.is_on_spec() ==> call_ensures(pred, (&self.data_spec(),), true),
            !self.is_on_spec() && !r.is_on_spec() ==> call_ensures(pred, (&self.data_spec(),), false),
    {
        match self {
            IO::Off(data) => {
                if pred(&data) {
                    IO::On(data)
                } else {
                    IO::Off(data)
                }
            },
            IO::On(data) => IO::On(data),
        }
    }

    /// Applies the selector to the payload of an enabled degree of freedom;
    /// a disabled one yields nothing.
    pub fn get_by<T, F: Fn(&IOData) -> Option<T>>(&self, pred: F) -> (r: Option<T>)
        requires
            forall|d: &IOData| #[trigger] call_requires(pred, (d,)),
        ensures
            self.is_on_spec() ==> call_ensures(pred, (&self.data_spec(),), r),
            !self.is_on_spec() ==> r is None,
    {
        match self {
            IO::On(data) => pred(data),
            IO::Off(_) => None,
        }
    }

    /// Whether the degree of freedom is enabled.
    pub fn is_on(&self) -> (r: bool)
        ensures
            r == self.is_on_spec(),
    {
        match self {
            IO::On(_) => true,
            IO::Off(_) => false,
        }
    }

    /// Takes the payload out, whichever the state.
    pub fn into_data(self) -> (r: IOData)
        ensures
            r == self.data_spec(),
    {
        match self {
            IO::On(data) => data,
            IO::Off(data) => data,
        }
    }
}

/// A named group of degrees of freedom.
#[derive(Debug, Clone)]
pub struct GroupIo {
    /// The group's name, as the model declares it.
    pub name: String,
    /// The group's degrees of freedom, in declaration order.
    pub io: Vec<IO>,
}

/// The 1-based global indices of the enabled degrees of freedom of a group,
/// flattened in declaration order.
pub open spec fn on_dofs(ios: Seq<IO>) -> Seq<u32>
    decreases ios.len(),
{
    if ios.len() == 0 {
        Seq::empty()
    } else {
        (if ios[0].is_on_spec() {
            ios[0].data_spec().indices@
        } else {
            Seq::empty()
        }) + on_dofs(ios.skip(1))
    }
}

/// How many degrees of freedom of the group are enabled.
pub open spec fn on_count(ios: Seq<IO>) -> nat
    decreases ios.len(),
{
    if ios.len() == 0 {
        0
    } else {
        (if ios[0].is_on_spec() {
            1nat
        } else {
            0nat
        }) + on_count(ios.skip(1))
    }
}

/// Peeling one element off the end of the sequence appends its contribution.
pub proof fn lemma_on_dofs_snoc(ios: Seq<IO>, i: int)
    requires
        0 <= i < ios.len(),
    ensures
        on_dofs(ios.take(i + 1)) == on_dofs(ios.take(i)) + (if ios[i].is_on_spec() {
            ios[i].data_spec().indices@
        } else {
            Seq::<u32>::empty()
        }),
    decreases i,
{
    let t = ios.take(i + 1);
    if i == 0 {
        assert(t.skip(1) =~= Seq::<IO>::empty());
        assert(ios.take(0) =~= Seq::<IO>::empty());
        assert(on_dofs(t) =~= on_dofs(ios.take(0)) + (if ios[0].is_on_spec() {
            ios[0].data_spec().indices@
        } else {
            Seq::<u32>::empty()
        }));
    } else {
        lemma_on_dofs_snoc(ios.skip(1), i - 1);
        assert(t.skip(1) =~= ios.skip(1).take(i));
        assert(ios.take(i).skip(1) =~= ios.skip(1).take(i - 1));
        assert(ios.skip(1)[i - 1] == ios[i]);
        assert(on_dofs(ios.take(i + 1)) =~= on_dofs(ios.take(i)) + (if ios[i].is_on_spec() {
            ios[i].data_spec().indices@
        } else {
            Seq::<u32>::empty()
        }));
    }
}

/// The same, for the count of enabled degrees of freedom.
pub proof fn lemma_on_count_snoc(ios: Seq<IO>, i: int)
    requires
        0 <= i < ios.len(),
    ensures
        on_count(ios.take(i + 1)) == on_count(ios.take(i)) + (if ios[i].is_on_spec() {
            1nat
        } else {
            0nat
        }),
    decreases i,
{
    if i == 0 {
        assert(ios.take(1).skip(1) =~= Seq::<IO>::empty());
        assert(ios.take(0) =~= Seq::<IO>::empty());
    } else {
        lemma_on_count_snoc(ios.skip(1), i - 1);
        assert(ios.take(i + 1).skip(1) =~= ios.skip(1).take(i));
        assert(ios.take(i).skip(1) =~= ios.skip(1).take(i - 1));
        assert(ios.skip(1)[i - 1] == ios[i]);
    }
}

impl GroupIo {
    /// How many degrees of freedom of the group are enabled.
    pub fn len(&self) -> (r: usize)
        ensures
            r == on_count(self.io@),
    {
        let mut n: usize = 0;
        let mut k: usize = 0;
        while k < self.io.len()
            invariant
                0 <= k <= self.io.len(),
                n == on_count(self.io@.take(k as int)),
                n <= k,
            decreases self.io.len() - k,
        {
            proof {
                lemma_on_count_snoc(self.io@, k as int);
            }
            if self.io[k].is_on() {
                n = n + 1;
            }
            k = k + 1;
        }
        proof {
            assert(self.io@.take(self.io@.len() as int) =~= self.io@);
        }
        n
    }

    /// The 1-based global indices of the enabled degrees of freedom, in order.
    pub fn on_indices(&self) -> (r: Vec<u32>)
        ensures
            r@ == on_dofs(self.io@),
    {
        let mut out: Vec<u32> = Vec::new();
        let mut k: usize = 0;
        while k < self.io.len()
            invariant
                0 <= k <= self.io.len(),
                out@ == on_dofs(self.io@.take(k as int)),
            decreases self.io.len() - k,
        {
            proof {
                lemma_on_dofs_snoc(self.io@, k as int);
            }
            match &self.io[k] {
                IO::On(data) => {
                    let mut j: usize = 0;
                    while j < data.indices.len()
                        invariant
                            0 <= k < self.io.len(),
                            0 <= j <= data.indices.len(),
                            self.io@[k as int].is_on_spec(),
                            data.indices@ == self.io@[k as int].data_spec().indices@,
                            out@ == on_dofs(self.io@.take(k as int)) + data.indices@.take(
                                j as int,
                            ),
                        decreases data.indices.len() - j,
                    {
                        proof {
                            assert(data.indices@.take(j + 1) =~= data.indices@.take(j as int)
                                + seq![data.indices@[j as int]]);
                        }
                        out.push(data.indices[j]);
                        j = j + 1;
                    }
                    proof {
                        assert(data.indices@.take(data.indices@.len() as int) =~= data.indices@);
                    }
                },
                IO::Off(_) => {
                    proof {
                        assert(out@ =~= on_dofs(self.io@.take(k as int)) + Seq::<u32>::empty());
                    }
                },
            }
            k = k + 1;
        }
        proof {
            assert(self.io@.take(self.io@.len() as int) =~= self.io@);
        }
        out
    }
}

} // verus!
