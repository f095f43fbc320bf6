use rand::seq::SliceRandom;
use vstd::prelude::*;

verus! {

/// Number of candidate values an open cell still has.
pub type Entropy = usize;

/// What can go wrong while collapsing or constraining cells.
#[derive(Debug, Clone, Copy, PartialEq, Eq, Structural)]
pub enum Error {
    /// Collapse of a settled cell, or a settled cell constrained by its own value.
    AlreadySettled,
    /// The value asked for is not among the cell's candidates.
    ValueNotCandidate,
    /// A random collapse of a cell that has no candidates left.
    EmptyCandidateSet,
    /// The identity does not name a cell of the graph.
    CellNotFound,
    /// The open cell of lowest entropy has no candidates left.
    Contradiction,
    /// The initial state descriptor could not be read.
    InvalidInput,
}

/// `s` with every occurrence of `v` removed, the rest kept in order.
pub open spec fn without<V>(s: Seq<V>, v: V) -> Seq<V> {
    s.filter(|x: V| x != v)
}

/// A unit that is either settled on one value or open with a set of candidates.
///
/// Constraining a settled cell with the value it holds is an error; with any
/// other value it does nothing.
pub trait Cell<V>: Sized {
    /// The value of a settled cell; `None` for an open cell.
    spec fn settled(&self) -> Option<V>;

    /// The candidates of an open cell, each once.
    spec fn candidates(&self) -> Seq<V>;

    /// Settles an open cell on `value`, or on a random candidate when `value` is `None`.
    fn collapse(&mut self, value: Option<V>) -> (r: Result<V, Error>)
        ensures
            old(self).settled() is Some ==> r == Err::<V, Error>(Error::AlreadySettled),
            old(self).settled() is None && value is Some && !old(self).candidates().contains(
                value->0,
            ) ==> r == Err::<V, Error>(Error::ValueNotCandidate),
            old(self).settled() is None && value is None && old(self).candidates().len() == 0
                ==> r == Err::<V, Error>(Error::EmptyCandidateSet),
            old(self).settled() is None && match value {
                Some(v) => old(self).candidates().contains(v),
                None => old(self).candidates().len() > 0,
            } ==> r is Ok,
            r is Err ==> *final(self) == *old(self),
            r is Ok ==> {
                &&& old(self).settled() is None
                &&& old(self).candidates().contains(r->Ok_0)
                &&& value is Some ==> r->Ok_0 == value->0
                &&& final(self).settled() == Some(r->Ok_0)
            },
    ;

    /// Removes `value` from the candidates of an open cell.
    fn constrain(&mut self, value: &V) -> (r: Result<(), Error>)
        ensures
            old(self).settled() is Some ==> *final(self) == *old(self) && (r is Err <==> old(
                self,
            ).settled() == Some(*value)) && (r is Err ==> r == Err::<(), Error>(
                Error::AlreadySettled,
            )),
            old(self).settled() is None ==> {
                &&& r is Ok
                &&& final(self).settled() is None
                &&& final(self).candidates() == without(old(self).candidates(), *value)
            },
    ;
}

/// Relies on rand's `SliceRandom::choose` with the thread-local generator:
/// `None` for an empty vector, otherwise one of its elements.
#[verifier::external_body]
pub(crate) fn choose_one<T: Copy>(items: &Vec<T>) -> (r: Option<T>)
    ensures
        items@.len() == 0 <==> r is None,
        r is Some ==> items@.contains(r->0),
{
    items.choose(&mut rand::thread_rng()).copied()
}

/// A cell of a Sudoku board: a digit, or the digits still possible.
pub enum SudokuCell {
    Value(u32),
    Superpositions(Vec<u32>),
}

/// `s` holds digits of 1 to 9, each at most once.
pub open spec fn digit_set(s: Seq<u32>) -> bool {
    &&& s.no_duplicates()
    &&& forall|i: int| 0 <= i < s.len() ==> 1 <= #[trigger] s[i] <= 9
}

/// The digits 1 to 9 in order.
pub open spec fn all_digits() -> Seq<u32> {
    Seq::new(9, |i: int| (i + 1) as u32)
}

/// Removing `v` keeps exactly the elements other than `v`, and never
/// lengthens the sequence.
pub proof fn lemma_without(s: Seq<u32>, v: u32)
    ensures
        forall|y: u32| #[trigger] without(s, v).contains(y) <==> (s.contains(y) && y != v),
        without(s, v).len() <= s.len(),
    decreases s.len(),
{
    reveal(Seq::filter);
    if s.len() > 0 {
        let d = s.drop_last();
        lemma_without(d, v);
        let f = without(d, v);
        let w = without(s, v);
        assert(w == if s.last() != v {
            f.push(s.last())
        } else {
            f
        });
        assert forall|y: u32| #[trigger] w.contains(y) <==> (s.contains(y) && y != v) by {
            if s.contains(y) {
                let k = choose|k: int| 0 <= k < s.len() && s[k] == y;
                if k < d.len() {
                    assert(d[k] == y);
                }
            }
            if d.contains(y) {
                let k = choose|k: int| 0 <= k < d.len() && d[k] == y;
                assert(s[k] == y);
            }
            if s.last() != v {
                if f.contains(y) {
                    let k = choose|k: int| 0 <= k < f.len() && f[k] == y;
                    assert(w[k] == y);
                }
                if w.contains(y) {
                    let k = choose|k: int| 0 <= k < w.len() && w[k] == y;
                    if k < f.len() {
                        assert(f[k] == y);
                    }
                }
                if y == s.last() {
                    assert(w[f.len() as int] == y);
                }
            }
        }
    }
}

proof fn lemma_without_digit_set(s: Seq<u32>, v: u32)
    requires
        digit_set(s),
    ensures
        digit_set(without(s, v)),
    decreases s.len(),
{
    reveal(Seq::filter);
    if s.len() > 0 {
        let d = s.drop_last();
        assert(digit_set(d)) by {
            assert forall|i: int, j: int| 0 <= i < d.len() && 0 <= j < d.len() && i != j implies d[i]
                != d[j] by {
                assert(d[i] == s[i] && d[j] == s[j]);
            }
            assert forall|i: int| 0 <= i < d.len() implies 1 <= #[trigger] d[i] <= 9 by {
                assert(d[i] == s[i]);
            }
        }
        lemma_without_digit_set(d, v);
        lemma_without(d, v);
        let f = without(d, v);
        let w = without(s, v);
        assert(w == if s.last() != v {
            f.push(s.last())
        } else {
            f
        });
        if s.last() != v {
            assert(!d.contains(s.last())) by {
                if d.contains(s.last()) {
                    let k = choose|k: int| 0 <= k < d.len() && d[k] == s.last();
                    assert(s[k] == s[s.len() - 1]);
                }
            }
            assert(!f.contains(s.last()));
            assert forall|i: int, j: int| 0 <= i < w.len() && 0 <= j < w.len() && i != j implies w[i]
                != w[j] by {
                if i == f.len() as int {
                    assert(f.contains(w[j]));
                } else if j == f.len() as int {
                    assert(f.contains(w[i]));
                } else {
                    assert(w[i] == f[i] && w[j] == f[j]);
                }
            }
            assert forall|i: int| 0 <= i < w.len() implies 1 <= #[trigger] w[i] <= 9 by {
                if i < f.len() {
                    assert(f[i] == w[i]);
                }
            }
        }
    }
}

impl SudokuCell {
    /// A cell is settled on a digit, or open with a set of digits.
    pub open spec fn wf(&self) -> bool {
        match self {
            SudokuCell::Value(v) => 1 <= *v <= 9,
            SudokuCell::Superpositions(s) => digit_set(s@),
        }
    }

    /// An open cell with every digit as a candidate.
    pub fn new() -> (r: Self)
        ensures
            r.wf(),
            r.settled() is None,
            r.candidates() == all_digits(),
    {
        let mut s: Vec<u32> = Vec::new();
        let mut d: u32 = 1;
        while d <= 9
            invariant
                1 <= d <= 10,
                s@ == Seq::new((d - 1) as nat, |i: int| (i + 1) as u32),
            decreases 10 - d,
        {
            s.push(d);
            d = d + 1;
        }
        assert(s@ == all_digits());
        assert(digit_set(s@));
        SudokuCell::Superpositions(s)
    }

    /// Number of candidates of an open cell; `None` for a settled cell.
    pub fn entropy(&self) -> (r: Option<Entropy>)
        ensures
            r is None <==> self.settled() is Some,
            r is Some ==> r->0 == self.candidates().len(),
    {
        match self {
            SudokuCell::Value(_) => None,
            SudokuCell::Superpositions(s) => Some(s.len()),
        }
    }

    /// The settled digit, or `None` for an open cell.
    pub fn value(&self) -> (r: Option<u32>)
        ensures
            r == self.settled(),
    {
        match self {
            SudokuCell::Value(v) => Some(*v),
            SudokuCell::Superpositions(_) => None,
        }
    }

    /// Keeps a well-formed cell well-formed under a successful collapse.
    pub proof fn lemma_collapse_wf(a: SudokuCell, b: SudokuCell, v: u32)
        requires
            a.wf(),
            a.settled() is None,
            a.candidates().contains(v),
            b.settled() == Some(v),
        ensures
            b.wf(),
    {
        let k = choose|k: int| 0 <= k < a.candidates().len() && a.candidates()[k] == v;
        assert(1 <= a.candidates()[k] <= 9);
    }

    /// Keeps a well-formed cell well-formed under a constraint.
    pub proof fn lemma_constrain_wf(a: SudokuCell, b: SudokuCell, v: u32)
        requires
            a.wf(),
            a.settled() is None,
            b.settled() is None,
            b.candidates() == without(a.candidates(), v),
        ensures
            b.wf(),
    {
        lemma_without_digit_set(a.candidates(), v);
    }
}

impl Cell<u32> for SudokuCell {
    open spec fn settled(&self) -> Option<u32> {
        match self {
            SudokuCell::Value(v) => Some(*v),
            SudokuCell::Superpositions(_) => None,
        }
    }

    open spec fn candidates(&self) -> Seq<u32> {
        match self {
            SudokuCell::Value(_) => Seq::empty(),
            SudokuCell::Superpositions(s) => s@,
        }
    }

    fn collapse(&mut self, value: Option<u32>) -> (r: Result<u32, Error>) {
        let chosen: u32 = match self {
            SudokuCell::Value(_) => {
                return Err(Error::AlreadySettled);
            },
            SudokuCell::Superpositions(s) => match value {
                Some(v) => {
                    let mut i: usize = 0;
                    let mut found = false;
                    while i < s.len()
                        invariant
                            0 <= i <= s@.len(),
                            found <==> exists|k: int| 0 <= k < i && s@[k] == v,
                        decreases s@.len() - i,
                    {
                        if s[i] == v {
                            found = true;
                        }
                        i = i + 1;
                    }
                    if !found {
                        return Err(Error::ValueNotCandidate);
                    }
                    v
                },
                None => match choose_one(s) {
                    Some(v) => v,
                    None => {
                        return Err(Error::EmptyCandidateSet);
                    },
                },
            },
        };
        *self = SudokuCell::Value(chosen);
        Ok(chosen)
    }

    fn constrain(&mut self, value: &u32) -> (r: Result<(), Error>) {
        match self {
            SudokuCell::Value(v) => {
                if *v == *value {
                    Err(Error::AlreadySettled)
                } else {
                    Ok(())
                }
            },
            SudokuCell::Superpositions(s) => {
                let ghost p = |x: u32| x != *value;
                let mut kept: Vec<u32> = Vec::new();
                let mut i: usize = 0;
                while i < s.len()
                    invariant
                        0 <= i <= s@.len(),
                        p == (|x: u32| x != *value),
                        kept@ == s@.subrange(0, i as int).filter(p),
                    decreases s@.len() - i,
                {
                    let ghost before = kept@;
                    let ghost next = s@.subrange(0, i as int + 1);
                    proof {
                        reveal(Seq::filter);
                        assert(next.drop_last() == s@.subrange(0, i as int));
                        assert(next.last() == s@[i as int]);
                        assert(next.drop_last().filter(p) == before);
                    }
                    let x = s[i];
                    if x != *value {
                        kept.push(x);
                        proof {
                            reveal(Seq::filter);
                            assert(p(next.last()));
                            assert(next.filter(p) == before.push(next.last()));
                            assert(kept@ == next.filter(p));
                        }
                    } else {
                        proof {
                            reveal(Seq::filter);
                            assert(!p(next.last()));
                            assert(kept@ == next.filter(p));
                        }
                    }
                    i = i + 1;
                }
                assert(s@.subrange(0, s@.len() as int) == s@);
                assert(kept@ == without(s@, *value));
                *s = kept;
                Ok(())
            },
        }
    }
}

} // verus!
