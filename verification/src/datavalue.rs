//! One cell: its text, and whether that text is a number.

use crate::number::{is_number, is_number_text};
use crate::text::{lemma_trimmed_idempotent, trim, trimmed};
use vstd::prelude::*;
use vstd::string::*;

verus! {

/// A cell of a table. It keeps the text it was made from and knows whether
/// that text is a number. A value is never changed: trimming gives a new one.
#[derive(Debug)]
pub struct DataValue {
    raw: String,
    is_value: bool,
}

impl View for DataValue {
    type V = Seq<char>;

    /// The text of the cell.
    closed spec fn view(&self) -> Seq<char> {
        self.raw@
    }
}

impl DataValue {
    /// Whether the cell is marked as a number.
    pub closed spec fn numeric(&self) -> bool {
        self.is_value
    }

    /// The mark agrees with the text.
    pub open spec fn wf(&self) -> bool {
        self.numeric() == is_number(self@)
    }

    #[verifier::type_invariant]
    pub(crate) open spec fn marked_by_text(&self) -> bool {
        self.wf()
    }

    /// The cell with the text `raw`; it is a number where `raw` is one.
    pub fn new(raw: &str) -> (v: DataValue)
        ensures
            v@ == raw@,
            v.numeric() == is_number(raw@),
            v.wf(),
    {
        let is_value = is_number_text(raw);
        DataValue { raw: raw.to_owned(), is_value }
    }

    /// The cell with no text, which is not a number.
    pub fn null() -> (v: DataValue)
        ensures
            v@ == Seq::<char>::empty(),
            !v.numeric(),
            v.wf(),
    {
        let v = DataValue::new("");
        proof {
            reveal_strlit("");
            assert(""@ =~= Seq::<char>::empty());
        }
        v
    }

    /// The text of the cell.
    pub fn raw(&self) -> (r: &str)
        ensures
            r@ == self@,
    {
        self.raw.as_str()
    }

    /// The cell whose text is this one's without the white space at its
    /// ends, read anew.
    pub fn trim(&self) -> (v: DataValue)
        ensures
            v@ == trimmed(self@),
            v.numeric() == is_number(trimmed(self@)),
            v.wf(),
    {
        DataValue::new(trim(self.raw.as_str()))
    }

    /// Whether the text of the cell is a number.
    pub fn is_value(&self) -> (r: bool)
        ensures
            r == self.numeric(),
            r == is_number(self@),
    {
        proof {
            use_type_invariant(self);
        }
        self.is_value
    }
}

/// Trimming is idempotent: a cell trimmed twice equals the cell trimmed
/// once. `once` and `twice` stand for what `trim` returns of `v` and of
/// `once`.
pub proof fn lemma_trim_idempotent(v: DataValue, once: DataValue, twice: DataValue)
    requires
        once.wf(),
        twice.wf(),
        once@ == trimmed(v@),
        twice@ == trimmed(once@),
    ensures
        twice@ == once@,
        twice.numeric() == once.numeric(),
        vstd::std_specs::cmp::PartialEqSpec::eq_spec(&twice, &once),
{
    lemma_trimmed_idempotent(v@);
}

/// Equal texts make equal cells.
pub proof fn lemma_equal_by_text(a: DataValue, b: DataValue)
    requires
        a.wf(),
        b.wf(),
    ensures
        vstd::std_specs::cmp::PartialEqSpec::eq_spec(&a, &b) <==> a@ == b@,
{
}

impl Clone for DataValue {
    fn clone(&self) -> (v: Self)
        ensures
            v == *self,
    {
        proof {
            use_type_invariant(self);
        }
        DataValue { raw: self.raw.clone(), is_value: self.is_value }
    }
}

impl PartialEq for DataValue {
    fn eq(&self, other: &Self) -> (r: bool) {
        self.raw == other.raw && self.is_value == other.is_value
    }
}

impl vstd::std_specs::cmp::PartialEqSpecImpl for DataValue {
    open spec fn obeys_eq_spec() -> bool {
        true
    }

    open spec fn eq_spec(&self, other: &Self) -> bool {
        self@ == other@ && self.numeric() == other.numeric()
    }
}

} // verus!
