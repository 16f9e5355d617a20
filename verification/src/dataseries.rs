//! One column of cells, in row order.

use crate::datavalue::DataValue;
use crate::number::{is_number, lemma_empty_is_no_number};
use crate::text::{lemma_trimmed_idempotent, str_texts, trimmed};
use vstd::prelude::*;

verus! {

/// How many of `texts` are not empty.
pub open spec fn count_non_blank(texts: Seq<Seq<char>>) -> nat {
    texts.filter(|t: Seq<char>| t.len() > 0).len()
}

/// How many of `texts` are numbers.
pub open spec fn count_numeric(texts: Seq<Seq<char>>) -> nat {
    texts.filter(|t: Seq<char>| is_number(t)).len()
}

/// `texts`, each trimmed.
pub open spec fn trimmed_all(texts: Seq<Seq<char>>) -> Seq<Seq<char>> {
    Seq::new(texts.len(), |i: int| trimmed(texts[i]))
}

/// Trimming is idempotent: texts trimmed twice are the texts trimmed once.
pub proof fn lemma_trimmed_all_idempotent(texts: Seq<Seq<char>>)
    ensures
        trimmed_all(trimmed_all(texts)) == trimmed_all(texts),
{
    assert forall|i: int| 0 <= i < texts.len() implies trimmed(#[trigger] trimmed_all(texts)[i])
        == trimmed_all(texts)[i] by {
        lemma_trimmed_idempotent(texts[i]);
    }
    assert(trimmed_all(trimmed_all(texts)) =~= trimmed_all(texts));
}

/// The numbers among texts put together are those of the one and those of
/// the other.
pub proof fn lemma_count_numeric_add(a: Seq<Seq<char>>, b: Seq<Seq<char>>)
    ensures
        count_numeric(a + b) == count_numeric(a) + count_numeric(b),
{
    Seq::filter_distributes_over_add(a, b, |t: Seq<char>| is_number(t));
}

/// Texts that are no numbers, put after others, leave the count of numbers
/// as it was: a mean taken over the numbers is divided by the same count.
pub proof fn lemma_count_numeric_ignores_text(a: Seq<Seq<char>>, b: Seq<Seq<char>>)
    requires
        forall|i: int| 0 <= i < b.len() ==> !is_number(#[trigger] b[i]),
    ensures
        count_numeric(a + b) == count_numeric(a),
{
    let keep = |t: Seq<char>| is_number(t);
    lemma_count_numeric_add(a, b);
    if b.filter(keep).len() > 0 {
        b.lemma_filter_pred(keep, 0);
        let t = b.filter(keep)[0];
        b.lemma_filter_contains_rev(keep, t);
    }
}

/// No more texts are numbers than are not empty, and no more are not empty
/// than there are texts.
pub proof fn lemma_counts_ordered(texts: Seq<Seq<char>>)
    ensures
        count_numeric(texts) <= count_non_blank(texts) <= texts.len(),
    decreases texts.len(),
{
    reveal(Seq::filter);
    if texts.len() > 0 {
        lemma_counts_ordered(texts.drop_last());
        lemma_empty_is_no_number();
        if is_number(texts.last()) {
            assert(texts.last() !== Seq::<char>::empty());
            assert(texts.last().len() > 0);
        }
    }
}

/// The cells of one column. The cell at the place `i` belongs to the row
/// `i`; the column grows at its end only.
pub struct DataSeries {
    data: Vec<DataValue>,
}

impl View for DataSeries {
    type V = Seq<Seq<char>>;

    /// The texts of the cells, in row order.
    closed spec fn view(&self) -> Seq<Seq<char>> {
        Seq::new(self.data@.len(), |i: int| self.data@[i]@)
    }
}

impl DataSeries {
    /// A column of `size` cells without text.
    pub fn new(size: usize) -> (r: DataSeries)
        ensures
            r@ == Seq::new(size as nat, |i: int| Seq::<char>::empty()),
    {
        let mut data: Vec<DataValue> = Vec::new();
        let mut i: usize = 0;
        while i < size
            invariant
                i <= size,
                data@.len() == i,
                forall|j: int| 0 <= j < i ==> data@[j]@ == Seq::<char>::empty(),
            decreases size - i,
        {
            data.push(DataValue::null());
            i += 1;
        }
        let r = DataSeries { data };
        assert(r@ =~= Seq::new(size as nat, |i: int| Seq::<char>::empty()));
        r
    }

    /// The column whose cells hold the texts `values`, in their order.
    pub fn from(values: Vec<&str>) -> (r: DataSeries)
        ensures
            r@ == str_texts(values@),
    {
        let mut data: Vec<DataValue> = Vec::new();
        let mut i: usize = 0;
        while i < values.len()
            invariant
                i <= values@.len(),
                data@.len() == i,
                forall|j: int| 0 <= j < i ==> data@[j]@ == values@[j]@,
            decreases values@.len() - i,
        {
            data.push(DataValue::new(values[i]));
            i += 1;
        }
        let r = DataSeries { data };
        assert(r@ =~= str_texts(values@));
        r
    }

    /// The number of rows.
    pub fn len(&self) -> (n: usize)
        ensures
            n == self@.len(),
    {
        self.data.len()
    }

    /// The number of cells whose text is not empty.
    pub fn count_not_null(&self) -> (n: usize)
        ensures
            n == count_non_blank(self@),
    {
        let ghost keep = |t: Seq<char>| t.len() > 0;
        let mut n: usize = 0;
        let mut i: usize = 0;
        assert(self@.take(0) =~= Seq::<Seq<char>>::empty());
        while i < self.data.len()
            invariant
                i <= self.data@.len(),
                n <= i,
                keep == |t: Seq<char>| t.len() > 0,
                n == self@.take(i as int).filter(keep).len(),
            decreases self.data@.len() - i,
        {
            proof {
                reveal(Seq::filter);
                assert(self@.take(i + 1).drop_last() =~= self@.take(i as int));
            }
            if !self.data[i].raw().is_empty() {
                n += 1;
            }
            i += 1;
        }
        assert(self@.take(i as int) =~= self@);
        n
    }

    /// The number of cells whose text is a number.
    pub fn count_val(&self) -> (n: usize)
        ensures
            n == count_numeric(self@),
    {
        let ghost keep = |t: Seq<char>| is_number(t);
        let mut n: usize = 0;
        let mut i: usize = 0;
        assert(self@.take(0) =~= Seq::<Seq<char>>::empty());
        while i < self.data.len()
            invariant
                i <= self.data@.len(),
                n <= i,
                keep == |t: Seq<char>| is_number(t),
                n == self@.take(i as int).filter(keep).len(),
            decreases self.data@.len() - i,
        {
            proof {
                reveal(Seq::filter);
                assert(self@.take(i + 1).drop_last() =~= self@.take(i as int));
            }
            if self.data[i].is_value() {
                n += 1;
            }
            i += 1;
        }
        assert(self@.take(i as int) =~= self@);
        n
    }

    /// The column whose cells are those of this one, each trimmed.
    pub fn trim(&self) -> (r: DataSeries)
        ensures
            r@ == trimmed_all(self@),
    {
        let mut data: Vec<DataValue> = Vec::new();
        let mut i: usize = 0;
        while i < self.data.len()
            invariant
                i <= self.data@.len(),
                data@.len() == i,
                forall|j: int| 0 <= j < i ==> data@[j]@ == trimmed(self.data@[j]@),
            decreases self.data@.len() - i,
        {
            data.push(self.data[i].trim());
            i += 1;
        }
        let r = DataSeries { data };
        assert(r@ =~= trimmed_all(self@));
        r
    }

    /// Adds one row at the end: a cell with the text `value`.
    pub fn add_row(&mut self, value: &str)
        ensures
            final(self)@ == old(self)@.push(value@),
    {
        self.data.push(DataValue::new(value));
        assert(self@ =~= old(self)@.push(value@));
    }
}

impl vstd::std_specs::core::IndexSpecImpl<usize> for DataSeries {
    open spec fn index_req(&self, index: &usize) -> bool {
        *index < self@.len()
    }
}

impl std::ops::Index<usize> for DataSeries {
    type Output = DataValue;

    /// The cell of the row `index`.
    fn index(&self, index: usize) -> (r: &DataValue)
        ensures
            r@ == self@[index as int],
            r.wf(),
    {
        let r = &self.data[index];
        proof {
            use_type_invariant(r);
        }
        r
    }
}

} // verus!
