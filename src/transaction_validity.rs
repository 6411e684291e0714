use vstd::prelude::*;

verus! {

/// Why a transaction was refused before its call ran.
#[derive(Clone, Copy, Debug, PartialEq, Eq, Structural)]
pub enum TransactionValidityError {
    /// The transaction is invalid; the code says why.
    Invalid(u8),
    /// Validity could not be decided; the code says why.
    Unknown(u8),
}

/// Metadata of a transaction that passed validation.
#[derive(Debug)]
pub struct ValidTransaction {
    pub priority: u64,
    pub required_tags: Vec<Vec<u8>>,
    pub provided_tags: Vec<Vec<u8>>,
    pub longevity: u64,
    pub propagate: bool,
}

pub type TransactionValidity = Result<ValidTransaction, TransactionValidityError>;

/// Spec-level value of a `ValidTransaction`.
pub struct ValidTransactionView {
    pub priority: u64,
    pub required_tags: Seq<Seq<u8>>,
    pub provided_tags: Seq<Seq<u8>>,
    pub longevity: u64,
    pub propagate: bool,
}

impl View for ValidTransaction {
    type V = ValidTransactionView;

    open spec fn view(&self) -> ValidTransactionView {
        ValidTransactionView {
            priority: self.priority,
            required_tags: self.required_tags.deep_view(),
            provided_tags: self.provided_tags.deep_view(),
            longevity: self.longevity,
            propagate: self.propagate,
        }
    }
}

pub open spec fn saturating_add_spec(a: u64, b: u64) -> u64 {
    if a + b > u64::MAX {
        u64::MAX
    } else {
        (a + b) as u64
    }
}

pub open spec fn min_spec(a: u64, b: u64) -> u64 {
    if a <= b {
        a
    } else {
        b
    }
}

/// Merge of two validity records: priorities add (saturating), tags of both
/// are kept in order, the shorter longevity wins, and the transaction is
/// propagated only if both allow it.
pub open spec fn combined(a: ValidTransactionView, b: ValidTransactionView) -> ValidTransactionView {
    ValidTransactionView {
        priority: saturating_add_spec(a.priority, b.priority),
        required_tags: a.required_tags + b.required_tags,
        provided_tags: a.provided_tags + b.provided_tags,
        longevity: min_spec(a.longevity, b.longevity),
        propagate: a.propagate && b.propagate,
    }
}

/// The outcome of a check with its payload dropped.
pub open spec fn outcome_of<T>(v: Result<T, TransactionValidityError>) -> Result<(), TransactionValidityError> {
    match v {
        Ok(_) => Ok(()),
        Err(e) => Err(e),
    }
}

impl ValidTransaction {
    /// A transaction with no priority, no tags, the longest longevity, and
    /// propagated.
    pub fn new() -> (r: ValidTransaction)
        ensures
            r@ == (ValidTransactionView {
                priority: 0,
                required_tags: Seq::empty(),
                provided_tags: Seq::empty(),
                longevity: u64::MAX,
                propagate: true,
            }),
    {
        let r = ValidTransaction {
            priority: 0,
            required_tags: Vec::new(),
            provided_tags: Vec::new(),
            longevity: u64::MAX,
            propagate: true,
        };
        assert(r.required_tags.deep_view() =~= Seq::<Seq<u8>>::empty());
        assert(r.provided_tags.deep_view() =~= Seq::<Seq<u8>>::empty());
        r
    }

    /// Merges the metadata of `self` with that of `other`.
    pub fn combine_with(self, other: ValidTransaction) -> (r: ValidTransaction)
        ensures
            r@ == combined(self@, other@),
    {
        let mut required_tags = self.required_tags;
        let mut other_requires = other.required_tags;
        let ghost a = required_tags.deep_view();
        let ghost b = other_requires.deep_view();
        required_tags.append(&mut other_requires);
        assert(required_tags.deep_view() =~= a + b);
        let mut provided_tags = self.provided_tags;
        let mut other_provides = other.provided_tags;
        let ghost c = provided_tags.deep_view();
        let ghost d = other_provides.deep_view();
        provided_tags.append(&mut other_provides);
        assert(provided_tags.deep_view() =~= c + d);
        ValidTransaction {
            priority: self.priority.saturating_add(other.priority),
            required_tags,
            provided_tags,
            longevity: if self.longevity <= other.longevity {
                self.longevity
            } else {
                other.longevity
            },
            propagate: self.propagate && other.propagate,
        }
    }
}

} // verus!
