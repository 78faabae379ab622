//! Per-line bookkeeping of the values already used.
use vstd::prelude::*;

verus! {

/// For each line (a row, a column or a box) and each value, whether the value
/// is already used on that line: `values[line - 1][value - 1]`.
#[derive(Debug, PartialEq, Clone)]
pub struct ValChecker {
    pub values: Vec<Vec<bool>>,
}

impl View for ValChecker {
    type V = Seq<Seq<bool>>;

    open spec fn view(&self) -> Seq<Seq<bool>> {
        self.values@.map_values(|line: Vec<bool>| line@)
    }
}

/// A `top x top` table.
pub open spec fn square_table(t: Seq<Seq<bool>>, top: int) -> bool {
    &&& t.len() == top
    &&& forall|i: int| 0 <= i < top ==> #[trigger] t[i].len() == top
}

/// The table `t` with entry (`line`, `value`), 1-based, set to `b`.
pub open spec fn mark(t: Seq<Seq<bool>>, line: int, value: int, b: bool) -> Seq<Seq<bool>> {
    t.update(line - 1, t[line - 1].update(value - 1, b))
}

/// Every entry of the table is set.
pub open spec fn all_marked(t: Seq<Seq<bool>>) -> bool {
    forall|i: int, j: int| 0 <= i < t.len() && 0 <= j < t[i].len() ==> #[trigger] t[i][j]
}

impl ValChecker {
    pub open spec fn wf(&self, top: int) -> bool {
        square_table(self@, top)
    }

    /// Whether `value` is marked as used on `line` (both 1-based).
    pub open spec fn used(&self, line: int, value: int) -> bool {
        self@[line - 1][value - 1]
    }

    pub fn new(top: u8) -> (r: Self)
        ensures
            r.wf(top as int),
            forall|i: int, j: int| 0 <= i < top && 0 <= j < top ==> !#[trigger] r@[i][j],
    {
        let n = top as usize;
        let mut values: Vec<Vec<bool>> = Vec::new();
        let mut i: usize = 0;
        while i < n
            invariant
                i <= n,
                values@.len() == i,
                forall|k: int, j: int| 0 <= k < i && 0 <= j < n ==> !#[trigger] values@[k]@[j],
                forall|k: int| 0 <= k < i ==> #[trigger] values@[k]@.len() == n,
            decreases n - i,
        {
            let mut line: Vec<bool> = Vec::new();
            let mut j: usize = 0;
            while j < n
                invariant
                    j <= n,
                    line@.len() == j,
                    forall|k: int| 0 <= k < j ==> !#[trigger] line@[k],
                decreases n - j,
            {
                line.push(false);
                j = j + 1;
            }
            values.push(line);
            i = i + 1;
        }
        let r = Self { values };
        assert(forall|k: int| 0 <= k < n ==> #[trigger] r@[k] == r.values@[k]@);
        r
    }

    /// A copy of the table.
    pub(crate) fn copy(&self) -> (r: Self)
        ensures
            r@ == self@,
    {
        let mut values: Vec<Vec<bool>> = Vec::new();
        let mut i: usize = 0;
        while i < self.values.len()
            invariant
                0 <= i <= self.values@.len(),
                values@.len() == i,
                forall|m: int| 0 <= m < i ==> #[trigger] values@[m]@ == self.values@[m]@,
            decreases self.values@.len() - i,
        {
            let line = self.values[i].clone();
            assert(line@ =~= self.values@[i as int]@);
            values.push(line);
            i = i + 1;
        }
        let r = Self { values };
        assert(r@ =~= self@);
        r
    }

    /// Marks `value` as used on `line`.
    pub fn set(&mut self, loc: u8, value: u8)
        requires
            1 <= loc <= old(self)@.len(),
            1 <= value <= old(self)@[loc - 1].len(),
        ensures
            final(self)@ == mark(old(self)@, loc as int, value as int, true),
    {
        self.put(loc, value, true);
    }

    /// Marks `value` as unused on `line`.
    pub fn unset(&mut self, loc: u8, value: u8)
        requires
            1 <= loc <= old(self)@.len(),
            1 <= value <= old(self)@[loc - 1].len(),
        ensures
            final(self)@ == mark(old(self)@, loc as int, value as int, false),
    {
        self.put(loc, value, false);
    }

    fn put(&mut self, loc: u8, value: u8, b: bool)
        requires
            1 <= loc <= old(self)@.len(),
            1 <= value <= old(self)@[loc - 1].len(),
        ensures
            final(self)@ == mark(old(self)@, loc as int, value as int, b),
    {
        let l = loc as usize - 1;
        let v = value as usize - 1;
        let mut line = self.values[l].clone();
        line.set(v, b);
        let ghost before = self.values@;
        self.values.set(l, line);
        assert(self@ =~= mark(old(self)@, loc as int, value as int, b)) by {
            assert forall|k: int| 0 <= k < self@.len() implies #[trigger] self@[k] == mark(
                old(self)@,
                loc as int,
                value as int,
                b,
            )[k] by {
                if k != l as int {
                    assert(self.values@[k] == before[k]);
                }
            }
        }
    }

    /// Whether every value is used on every line.
    pub fn is_solved(&self) -> (r: bool)
        ensures
            r == all_marked(self@),
    {
        let mut i: usize = 0;
        while i < self.values.len()
            invariant
                0 <= i <= self.values@.len(),
                forall|k: int, j: int|
                    0 <= k < i && 0 <= j < self@[k].len() ==> #[trigger] self@[k][j],
            decreases self.values@.len() - i,
        {
            let line = &self.values[i];
            let mut j: usize = 0;
            while j < line.len()
                invariant
                    0 <= j <= line@.len(),
                    i < self.values@.len(),
                    line@ == self@[i as int],
                    forall|m: int| 0 <= m < j ==> #[trigger] line@[m],
                decreases line@.len() - j,
            {
                if !line[j] {
                    assert(!self@[i as int][j as int]);
                    return false;
                }
                j = j + 1;
            }
            i = i + 1;
        }
        true
    }

    /// For each value slot of `line`, in order, `Some(value)` when the value
    /// is still unused there, `None` when it is used.
    pub fn available_values(&self, loc: u8) -> (r: Vec<Option<u8>>)
        requires
            1 <= loc <= self@.len(),
            self@[loc - 1].len() <= u8::MAX,
        ensures
            r@.len() == self@[loc - 1].len(),
            forall|j: int|
                0 <= j < r@.len() ==> #[trigger] r@[j] == if self@[loc - 1][j] {
                    None
                } else {
                    Some((j + 1) as u8)
                },
    {
        let line = &self.values[loc as usize - 1];
        let mut r: Vec<Option<u8>> = Vec::new();
        let mut j: usize = 0;
        while j < line.len()
            invariant
                0 <= j <= line@.len(),
                line@ == self@[loc - 1],
                line@.len() <= u8::MAX,
                r@.len() == j,
                forall|m: int|
                    0 <= m < j ==> #[trigger] r@[m] == if line@[m] {
                        None
                    } else {
                        Some((m + 1) as u8)
                    },
            decreases line@.len() - j,
        {
            if line[j] {
                r.push(None);
            } else {
                r.push(Some((j + 1) as u8));
            }
            j = j + 1;
        }
        r
    }
}

/// Setting one entry keeps a table square.
pub proof fn lemma_mark_square(t: Seq<Seq<bool>>, top: int, line: int, value: int, b: bool)
    requires
        square_table(t, top),
        1 <= line <= top,
        1 <= value <= top,
    ensures
        square_table(mark(t, line, value, b), top),
{
    let m = mark(t, line, value, b);
    assert forall|i: int| 0 <= i < top implies #[trigger] m[i].len() == top by {
        if i != line - 1 {
            assert(m[i] == t[i]);
        }
    }
}

} // verus!
