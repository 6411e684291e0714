use changes_runtime::checked_extrinsic::{
    combine_unsigned, CheckedExtrinsic, Dispatchable, ExtrinsicSignature, Hook, HookRecord,
    SignedExtension, ValidateUnsigned,
};
use changes_runtime::transaction_validity::{
    TransactionValidity, TransactionValidityError, ValidTransaction,
};

#[derive(Debug, Clone, PartialEq)]
struct Call {
    refuse_chain: bool,
    refuse_gate: bool,
    fail_call: bool,
}

impl Dispatchable for Call {
    type AccountId = u64;
    type Outcome = Result<Option<u64>, u8>;

    fn dispatch(self, signer: Option<u64>) -> Result<Option<u64>, u8> {
        if self.fail_call {
            Err(7)
        } else {
            Ok(signer)
        }
    }
}

fn valid(priority: u64, tag: u8, longevity: u64, propagate: bool) -> ValidTransaction {
    ValidTransaction {
        priority,
        required_tags: vec![vec![tag]],
        provided_tags: vec![vec![tag + 1]],
        longevity,
        propagate,
    }
}

#[derive(Debug, Clone, PartialEq)]
struct Extra {
    refuse: bool,
}

impl SignedExtension for Extra {
    type AccountId = u64;
    type Call = Call;
    type DispatchInfo = u32;
    type Pre = u32;

    fn validate(&self, _who: &u64, _call: &Call, _info: u32, _len: usize) -> TransactionValidity {
        if self.refuse {
            Err(TransactionValidityError::Invalid(1))
        } else {
            Ok(valid(10, 1, 50, true))
        }
    }

    fn validate_unsigned(call: &Call, _info: u32, _len: usize) -> TransactionValidity {
        if call.refuse_chain {
            Err(TransactionValidityError::Invalid(2))
        } else {
            Ok(valid(10, 1, 50, true))
        }
    }

    fn pre_dispatch(self, _who: &u64, _call: &Call, info: u32, _len: usize) -> Result<u32, TransactionValidityError> {
        if self.refuse {
            Err(TransactionValidityError::Invalid(3))
        } else {
            Ok(info)
        }
    }

    fn pre_dispatch_unsigned(call: &Call, info: u32, _len: usize) -> Result<u32, TransactionValidityError> {
        if call.refuse_chain {
            Err(TransactionValidityError::Invalid(4))
        } else {
            Ok(info)
        }
    }

    fn post_dispatch(_pre: u32, _info: u32, _len: usize) {}
}

struct Validator;

impl ValidateUnsigned for Validator {
    type Call = Call;

    fn validate_unsigned(call: &Call) -> TransactionValidity {
        if call.refuse_gate {
            Err(TransactionValidityError::Unknown(5))
        } else {
            Ok(valid(u64::MAX, 7, 20, false))
        }
    }

    fn pre_dispatch(call: &Call) -> Result<(), TransactionValidityError> {
        if call.refuse_gate {
            Err(TransactionValidityError::Unknown(6))
        } else {
            Ok(())
        }
    }
}

fn call(refuse_chain: bool, refuse_gate: bool, fail_call: bool) -> Call {
    Call { refuse_chain, refuse_gate, fail_call }
}

fn signed(refuse: bool, c: Call) -> CheckedExtrinsic<u64, Call, Extra> {
    CheckedExtrinsic { signed: ExtrinsicSignature::Normal((42, Extra { refuse })), function: c }
}

fn unsigned(c: Call) -> CheckedExtrinsic<u64, Call, Extra> {
    CheckedExtrinsic { signed: ExtrinsicSignature::Detached, function: c }
}

fn ran(hook: Hook) -> HookRecord {
    HookRecord { hook, outcome: Ok(()) }
}

fn refused(hook: Hook, e: TransactionValidityError) -> HookRecord {
    HookRecord { hook, outcome: Err(e) }
}

#[test]
fn sender_is_signer_of_signed_only() {
    assert_eq!(signed(false, call(false, false, false)).sender(), Some(&42));
    assert_eq!(unsigned(call(false, false, false)).sender(), None);
    let inherent: CheckedExtrinsic<u64, Call, Extra> =
        CheckedExtrinsic { signed: ExtrinsicSignature::Inherent, function: call(false, false, false) };
    assert_eq!(inherent.sender(), None);
}

#[test]
fn signed_validation_is_chain_verdict() {
    let mut journal = Vec::new();
    let r = signed(false, call(false, false, false)).validate::<Validator, u32>(1, 10, &mut journal);
    assert_eq!(r.unwrap().priority, 10);
    let r = signed(true, call(false, false, false)).validate::<Validator, u32>(1, 10, &mut journal);
    assert_eq!(r.unwrap_err(), TransactionValidityError::Invalid(1));
    assert_eq!(
        journal,
        vec![ran(Hook::Validate), refused(Hook::Validate, TransactionValidityError::Invalid(1))]
    );
}

#[test]
fn unsigned_validation_merges_metadata_of_both() {
    let mut journal = Vec::new();
    let v = unsigned(call(false, false, false)).validate::<Validator, u32>(1, 10, &mut journal).unwrap();
    assert_eq!(v.priority, u64::MAX);
    assert_eq!(v.required_tags, vec![vec![1], vec![7]]);
    assert_eq!(v.provided_tags, vec![vec![2], vec![8]]);
    assert_eq!(v.longevity, 20);
    assert!(!v.propagate);
    assert_eq!(journal, vec![ran(Hook::ValidateUnsigned), ran(Hook::ValidatorCheck)]);
}

#[test]
fn unsigned_validation_stops_at_chain_refusal() {
    let mut journal = Vec::new();
    let r = unsigned(call(true, false, false)).validate::<Validator, u32>(1, 10, &mut journal);
    assert_eq!(r.unwrap_err(), TransactionValidityError::Invalid(2));
    assert_eq!(journal, vec![refused(Hook::ValidateUnsigned, TransactionValidityError::Invalid(2))]);
}

#[test]
fn unsigned_validation_fails_on_gate_refusal() {
    let mut journal = Vec::new();
    let r = unsigned(call(false, true, false)).validate::<Validator, u32>(1, 10, &mut journal);
    assert_eq!(r.unwrap_err(), TransactionValidityError::Unknown(5));
    assert_eq!(
        journal,
        vec![ran(Hook::ValidateUnsigned), refused(Hook::ValidatorCheck, TransactionValidityError::Unknown(5))]
    );
}

#[test]
fn inherent_is_valid_without_hooks() {
    let inherent: CheckedExtrinsic<u64, Call, Extra> =
        CheckedExtrinsic { signed: ExtrinsicSignature::Inherent, function: call(false, false, false) };
    let mut journal = Vec::new();
    let v = inherent.validate::<Validator, u32>(1, 10, &mut journal).unwrap();
    assert_eq!(v.priority, 0);
    assert_eq!(v.longevity, u64::MAX);
    assert!(v.propagate);
    assert!(journal.is_empty());
}

#[test]
fn signed_apply_dispatches_then_posts() {
    let mut journal = Vec::new();
    let r = signed(false, call(false, false, false)).apply::<Validator, u32>(1, 10, &mut journal);
    assert_eq!(r, Ok(Ok(Some(42))));
    assert_eq!(journal, vec![ran(Hook::PreDispatch), ran(Hook::Dispatch(true)), ran(Hook::PostDispatch)]);
}

#[test]
fn failing_call_still_posts_once() {
    let mut journal = Vec::new();
    let r = signed(false, call(false, false, true)).apply::<Validator, u32>(1, 10, &mut journal);
    assert_eq!(r, Ok(Err(7)));
    assert_eq!(journal.iter().filter(|h| h.hook == Hook::PostDispatch).count(), 1);
    let mut journal = Vec::new();
    let r = unsigned(call(false, false, true)).apply::<Validator, u32>(1, 10, &mut journal);
    assert_eq!(r, Ok(Err(7)));
    assert_eq!(journal.iter().filter(|h| h.hook == Hook::PostDispatch).count(), 1);
}

#[test]
fn refused_apply_runs_no_call() {
    let mut journal = Vec::new();
    let r = signed(true, call(false, false, false)).apply::<Validator, u32>(1, 10, &mut journal);
    assert_eq!(r, Err(TransactionValidityError::Invalid(3)));
    assert_eq!(journal, vec![refused(Hook::PreDispatch, TransactionValidityError::Invalid(3))]);
}

#[test]
fn unsigned_apply_needs_chain_and_gate() {
    let mut journal = Vec::new();
    let r = unsigned(call(true, false, false)).apply::<Validator, u32>(1, 10, &mut journal);
    assert_eq!(r, Err(TransactionValidityError::Invalid(4)));
    assert_eq!(journal, vec![refused(Hook::PreDispatchUnsigned, TransactionValidityError::Invalid(4))]);

    let mut journal = Vec::new();
    let r = unsigned(call(false, true, false)).apply::<Validator, u32>(1, 10, &mut journal);
    assert_eq!(r, Err(TransactionValidityError::Unknown(6)));
    assert_eq!(
        journal,
        vec![ran(Hook::PreDispatchUnsigned), refused(Hook::ValidatorPreDispatch, TransactionValidityError::Unknown(6))]
    );

    let mut journal = Vec::new();
    let r = unsigned(call(false, false, false)).apply::<Validator, u32>(1, 10, &mut journal);
    assert_eq!(r, Ok(Ok(None)));
    assert_eq!(
        journal,
        vec![
            ran(Hook::PreDispatchUnsigned),
            ran(Hook::ValidatorPreDispatch),
            ran(Hook::Dispatch(false)),
            ran(Hook::PostDispatch),
        ]
    );
}

#[test]
fn inherent_apply_dispatches_unsigned_without_hooks() {
    let inherent: CheckedExtrinsic<u64, Call, Extra> =
        CheckedExtrinsic { signed: ExtrinsicSignature::Inherent, function: call(false, false, false) };
    let mut journal = Vec::new();
    assert_eq!(inherent.apply::<Validator, u32>(1, 10, &mut journal), Ok(Ok(None)));
    assert_eq!(journal, vec![ran(Hook::Dispatch(false))]);
}

#[test]
fn combine_unsigned_cases() {
    let e = TransactionValidityError::Invalid(9);
    assert_eq!(combine_unsigned(Err(e), Some(Ok(valid(1, 1, 1, true)))).unwrap_err(), e);
    assert_eq!(combine_unsigned(Ok(valid(1, 1, 1, true)), Some(Err(e))).unwrap_err(), e);
    assert_eq!(combine_unsigned(Ok(valid(3, 1, 9, true)), None).unwrap().priority, 3);
    let v = combine_unsigned(Ok(valid(3, 1, 9, true)), Some(Ok(valid(4, 5, 6, true)))).unwrap();
    assert_eq!(v.priority, 7);
    assert_eq!(v.longevity, 6);
    assert!(v.propagate);
    assert_eq!(v.required_tags, vec![vec![1], vec![5]]);
}

#[test]
fn combine_with_saturates_priority() {
    let v = valid(u64::MAX - 1, 1, 3, true).combine_with(valid(5, 2, 4, false));
    assert_eq!(v.priority, u64::MAX);
    assert_eq!(v.longevity, 3);
    assert!(!v.propagate);
    assert_eq!(v.provided_tags, vec![vec![2], vec![3]]);
}

#[test]
fn new_validity_is_neutral() {
    let v = ValidTransaction::new();
    assert_eq!(v.priority, 0);
    assert!(v.required_tags.is_empty());
    assert!(v.provided_tags.is_empty());
    assert_eq!(v.longevity, u64::MAX);
    assert!(v.propagate);
}
