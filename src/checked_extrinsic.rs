use vstd::prelude::*;
use crate::transaction_validity::{
    TransactionValidity, TransactionValidityError, ValidTransaction, combined, outcome_of,
};

verus! {

/// Who authorised an extrinsic.
#[derive(Clone, PartialEq, Eq, Debug)]
pub enum ExtrinsicSignature<T> {
    /// Produced by the block author; never signed, never extension-gated.
    Inherent,
    /// Signed; carries the signer and the extension data.
    Normal(T),
    /// Unsigned, but gated by the unsigned-validation check.
    Detached,
}

/// An extrinsic whose signature has already been checked.
#[derive(Clone, PartialEq, Eq, Debug)]
pub struct CheckedExtrinsic<AccountId, Call, Extra> {
    /// The signer and extension data, if any.
    pub signed: ExtrinsicSignature<(AccountId, Extra)>,
    /// The call to dispatch.
    pub function: Call,
}

/// The ordered chain of pluggable hooks attached to an extrinsic. Each
/// `..._gave` predicate says which results a hook may give for its
/// arguments; `post_dispatched` says that post-dispatch ran on its arguments.
pub trait SignedExtension: Sized {
    type AccountId;
    type Call;
    type DispatchInfo;
    type Pre;

    closed spec fn validate_gave(
        &self,
        who: Self::AccountId,
        call: Self::Call,
        info: Self::DispatchInfo,
        len: usize,
        r: TransactionValidity,
    ) -> bool {
        true
    }

    closed spec fn validate_unsigned_gave(
        call: Self::Call,
        info: Self::DispatchInfo,
        len: usize,
        r: TransactionValidity,
    ) -> bool {
        true
    }

    closed spec fn pre_dispatch_gave(
        &self,
        who: Self::AccountId,
        call: Self::Call,
        info: Self::DispatchInfo,
        len: usize,
        r: Result<Self::Pre, TransactionValidityError>,
    ) -> bool {
        true
    }

    closed spec fn pre_dispatch_unsigned_gave(
        call: Self::Call,
        info: Self::DispatchInfo,
        len: usize,
        r: Result<Self::Pre, TransactionValidityError>,
    ) -> bool {
        true
    }

    closed spec fn post_dispatched(pre: Self::Pre, info: Self::DispatchInfo, len: usize) -> bool {
        true
    }

    /// Validity of a signed extrinsic.
    fn validate(
        &self,
        who: &Self::AccountId,
        call: &Self::Call,
        info: Self::DispatchInfo,
        len: usize,
    ) -> (r: TransactionValidity)
        ensures
            self.validate_gave(*who, *call, info, len, r),
    ;

    /// Validity of an unsigned extrinsic, as far as the chain is concerned.
    fn validate_unsigned(call: &Self::Call, info: Self::DispatchInfo, len: usize) -> (r:
        TransactionValidity)
        ensures
            Self::validate_unsigned_gave(*call, info, len, r),
    ;

    /// Checks run at inclusion time of a signed extrinsic.
    fn pre_dispatch(
        self,
        who: &Self::AccountId,
        call: &Self::Call,
        info: Self::DispatchInfo,
        len: usize,
    ) -> (r: Result<Self::Pre, TransactionValidityError>)
        ensures
            self.pre_dispatch_gave(*who, *call, info, len, r),
    ;

    /// Checks run at inclusion time of an unsigned extrinsic.
    fn pre_dispatch_unsigned(call: &Self::Call, info: Self::DispatchInfo, len: usize) -> (r: Result<
        Self::Pre,
        TransactionValidityError,
    >)
        ensures
            Self::pre_dispatch_unsigned_gave(*call, info, len, r),
    ;

    /// Accounting run after the call, whatever the call returned.
    fn post_dispatch(pre: Self::Pre, info: Self::DispatchInfo, len: usize)
        ensures
            Self::post_dispatched(pre, info, len),
    ;
}

/// The validator that unsigned extrinsics of a call type must pass.
pub trait ValidateUnsigned {
    type Call;

    closed spec fn validate_unsigned_gave(call: Self::Call, r: TransactionValidity) -> bool {
        true
    }

    closed spec fn pre_dispatch_gave(call: Self::Call, r: Result<(), TransactionValidityError>) -> bool {
        true
    }

    fn validate_unsigned(call: &Self::Call) -> (r: TransactionValidity)
        ensures
            Self::validate_unsigned_gave(*call, r),
    ;

    fn pre_dispatch(call: &Self::Call) -> (r: Result<(), TransactionValidityError>)
        ensures
            Self::pre_dispatch_gave(*call, r),
    ;
}

/// A call that can be executed on behalf of an optional signer.
pub trait Dispatchable: Sized {
    type AccountId;
    type Outcome;

    closed spec fn dispatch_gave(self, signer: Option<Self::AccountId>, r: Self::Outcome) -> bool {
        true
    }

    /// Runs the call; `None` stands for the unsigned origin.
    fn dispatch(self, signer: Option<Self::AccountId>) -> (r: Self::Outcome)
        ensures
            self.dispatch_gave(signer, r),
    ;
}

/// A hook of the pipeline.
#[derive(Clone, Copy, Debug, PartialEq, Eq, Structural)]
pub enum Hook {
    /// The chain's check of a signed extrinsic.
    Validate,
    /// The chain's check of an unsigned extrinsic.
    ValidateUnsigned,
    /// The unsigned validator's check.
    ValidatorCheck,
    /// The chain's inclusion-time check of a signed extrinsic.
    PreDispatch,
    /// The chain's inclusion-time check of an unsigned extrinsic.
    PreDispatchUnsigned,
    /// The validator's inclusion-time check.
    ValidatorPreDispatch,
    /// The call itself; `true` when dispatched with a signer.
    Dispatch(bool),
    /// The chain's post-dispatch accounting.
    PostDispatch,
}

/// One entry of the journal: a hook that ran and how it ended.
#[derive(Clone, Copy, Debug, PartialEq, Eq)]
pub struct HookRecord {
    pub hook: Hook,
    pub outcome: Result<(), TransactionValidityError>,
}

pub open spec fn ran(hook: Hook) -> HookRecord {
    HookRecord { hook, outcome: Ok(()) }
}

/// The journal entries that `validate` adds for an extrinsic signed as `signed`,
/// with `r` the outcome it returns.
pub open spec fn validate_journal<T>(
    signed: ExtrinsicSignature<T>,
    added: Seq<HookRecord>,
    r: Result<(), TransactionValidityError>,
) -> bool {
    match signed {
        ExtrinsicSignature::Inherent => added.len() == 0 && r is Ok,
        ExtrinsicSignature::Normal(_) => {
            &&& added.len() == 1
            &&& added[0].hook == Hook::Validate
            &&& r == added[0].outcome
        },
        ExtrinsicSignature::Detached => {
            &&& 1 <= added.len() <= 2
            &&& added[0].hook == Hook::ValidateUnsigned
            &&& if added[0].outcome is Err {
                added.len() == 1 && r == added[0].outcome
            } else {
                added.len() == 2 && added[1].hook == Hook::ValidatorCheck && r == added[1].outcome
            }
        },
    }
}

/// The journal entries that `apply` adds for an extrinsic signed as `signed`,
/// with `r` the pipeline-level outcome it returns.
pub open spec fn apply_journal<T>(
    signed: ExtrinsicSignature<T>,
    added: Seq<HookRecord>,
    r: Result<(), TransactionValidityError>,
) -> bool {
    match signed {
        ExtrinsicSignature::Inherent => added == seq![ran(Hook::Dispatch(false))] && r is Ok,
        ExtrinsicSignature::Normal(_) => {
            &&& added.len() >= 1
            &&& added[0].hook == Hook::PreDispatch
            &&& if added[0].outcome is Err {
                added.len() == 1 && r == added[0].outcome
            } else {
                &&& added == seq![added[0], ran(Hook::Dispatch(true)), ran(Hook::PostDispatch)]
                &&& r is Ok
            }
        },
        ExtrinsicSignature::Detached => {
            &&& added.len() >= 1
            &&& added[0].hook == Hook::PreDispatchUnsigned
            &&& if added[0].outcome is Err {
                added.len() == 1 && r == added[0].outcome
            } else {
                &&& added.len() >= 2
                &&& added[1].hook == Hook::ValidatorPreDispatch
                &&& if added[1].outcome is Err {
                    added.len() == 2 && r == added[1].outcome
                } else {
                    &&& added == seq![
                        added[0],
                        added[1],
                        ran(Hook::Dispatch(false)),
                        ran(Hook::PostDispatch),
                    ]
                    &&& r is Ok
                }
            }
        },
    }
}

fn record(journal: &mut Vec<HookRecord>, hook: Hook, outcome: Result<(), TransactionValidityError>)
    ensures
        final(journal)@ == old(journal)@.push(HookRecord { hook, outcome }),
{
    journal.push(HookRecord { hook, outcome });
}

fn status<T>(r: &Result<T, TransactionValidityError>) -> (s: Result<(), TransactionValidityError>)
    ensures
        s == outcome_of(*r),
{
    match r {
        Ok(_) => Ok(()),
        Err(e) => Err(*e),
    }
}

/// Outcome of an unsigned validation: the chain's result `chain` and, when
/// the chain accepted, the validator's result `validator`. Both must accept, and then
/// their metadata is merged; without a validator result the chain's stands.
pub fn combine_unsigned(chain: TransactionValidity, validator: Option<TransactionValidity>) -> (r:
    TransactionValidity)
    ensures
        chain is Err ==> r == chain,
        chain is Ok && validator is None ==> r == chain,
        chain is Ok && validator is Some ==> match validator.unwrap() {
            Err(e) => r == Err::<ValidTransaction, TransactionValidityError>(e),
            Ok(g) => r is Ok && r->Ok_0@ == combined(chain->Ok_0@, g@),
        },
{
    match chain {
        Err(e) => Err(e),
        Ok(valid) => match validator {
            Some(Ok(g)) => Ok(valid.combine_with(g)),
            Some(Err(e)) => Err(e),
            None => Ok(valid),
        },
    }
}

/// The entries that `new` holds past the end of `old`.
pub open spec fn added_since(old: Seq<HookRecord>, new: Seq<HookRecord>) -> Seq<HookRecord> {
    new.subrange(old.len() as int, new.len() as int)
}

/// `new` is `old` with entries appended.
pub open spec fn extends(old: Seq<HookRecord>, new: Seq<HookRecord>) -> bool {
    new.len() >= old.len() && new.subrange(0, old.len() as int) == old
}

/// A journal that grew by `s` extends the old one, by exactly `s`.
proof fn lemma_grown_by(old: Seq<HookRecord>, new: Seq<HookRecord>, s: Seq<HookRecord>)
    requires
        new =~= old + s,
    ensures
        extends(old, new),
        added_since(old, new) == s,
{
    assert(new.subrange(0, old.len() as int) =~= old);
    assert(added_since(old, new) =~= s);
}

/// The metadata of a transaction with no priority, no tags, the longest
/// longevity, and propagated.
pub open spec fn neutral_validity() -> crate::transaction_validity::ValidTransactionView {
    crate::transaction_validity::ValidTransactionView {
        priority: 0,
        required_tags: Seq::empty(),
        provided_tags: Seq::empty(),
        longevity: u64::MAX,
        propagate: true,
    }
}

impl<AccountId, Call, Extra> CheckedExtrinsic<AccountId, Call, Extra> {
    /// The signer, for a signed extrinsic.
    pub fn sender(&self) -> (r: Option<&AccountId>)
        ensures
            r == match self.signed {
                ExtrinsicSignature::Normal(p) => Some(&p.0),
                _ => None,
            },
    {
        match &self.signed {
            ExtrinsicSignature::Normal(p) => Some(&p.0),
            _ => None,
        }
    }

    /// Decides whether the extrinsic is valid, running the hooks the origin
    /// asks for and noting each in `journal`. An inherent is valid with
    /// neutral metadata; a signed one gets the chain's verdict unchanged; an
    /// unsigned one must pass the chain and then the validator (which runs
    /// only if the chain accepted), and carries the metadata of both.
    pub fn validate<U, Info>(&self, info: Info, len: usize, journal: &mut Vec<HookRecord>) -> (r:
        TransactionValidity) where
        Extra: SignedExtension<AccountId = AccountId, Call = Call, DispatchInfo = Info>,
        U: ValidateUnsigned<Call = Call>,

        ensures
            extends(old(journal)@, final(journal)@),
            validate_journal(self.signed, added_since(old(journal)@, final(journal)@), outcome_of(r)),
            self.signed is Inherent ==> r is Ok && r->Ok_0@ == neutral_validity(),
            self.signed is Normal ==> self.signed->Normal_0.1.validate_gave(
                self.signed->Normal_0.0,
                self.function,
                info,
                len,
                r,
            ),
            self.signed is Detached ==> exists|chain: TransactionValidity|
                #[trigger] Extra::validate_unsigned_gave(self.function, info, len, chain)
                    && added_since(old(journal)@, final(journal)@)[0].outcome == outcome_of(chain)
                    && match chain {
                    Err(e) => r == Err::<ValidTransaction, TransactionValidityError>(e),
                    Ok(a) => exists|second: TransactionValidity|
                        #[trigger] U::validate_unsigned_gave(self.function, second)
                            && added_since(old(journal)@, final(journal)@)[1].outcome == outcome_of(
                            second,
                        ) && match second {
                            Err(e) => r == Err::<ValidTransaction, TransactionValidityError>(e),
                            Ok(b) => r is Ok && r->Ok_0@ == combined(a@, b@),
                        },
                },
    {
        let ghost j0 = journal@;
        match &self.signed {
            ExtrinsicSignature::Inherent => {
                proof {
                    lemma_grown_by(j0, journal@, Seq::empty());
                }
                Ok(ValidTransaction::new())
            },
            ExtrinsicSignature::Normal(p) => {
                let r = p.1.validate(&p.0, &self.function, info, len);
                record(journal, Hook::Validate, status(&r));
                proof {
                    lemma_grown_by(j0, journal@, seq![journal@.last()]);
                }
                r
            },
            ExtrinsicSignature::Detached => {
                let chain = Extra::validate_unsigned(&self.function, info, len);
                record(journal, Hook::ValidateUnsigned, status(&chain));
                let ghost first = journal@.last();
                let ghost chain_given = chain;
                if chain.is_err() {
                    proof {
                        lemma_grown_by(j0, journal@, seq![first]);
                    }
                    return combine_unsigned(chain, None);
                }
                let validator = U::validate_unsigned(&self.function);
                record(journal, Hook::ValidatorCheck, status(&validator));
                let ghost validator_given = validator;
                proof {
                    lemma_grown_by(j0, journal@, seq![first, journal@.last()]);
                }
                let r = combine_unsigned(chain, Some(validator));
                assert(U::validate_unsigned_gave(self.function, validator_given));
                assert(Extra::validate_unsigned_gave(self.function, info, len, chain_given));
                r
            },
        }
    }

    /// Applies the extrinsic, consuming it. The inclusion-time checks that the
    /// origin asks for run first; if one refuses, `apply` fails with its
    /// reason and neither the call nor the post-dispatch hook runs. Otherwise
    /// the call is dispatched (with its signer for a signed extrinsic,
    /// unsigned otherwise), post-dispatch runs on what the checks gave,
    /// whatever the call returned, and the call's own outcome is returned. An
    /// inherent runs no hook.
    pub fn apply<U, Info>(self, info: Info, len: usize, journal: &mut Vec<HookRecord>) -> (r: Result<
        Call::Outcome,
        TransactionValidityError,
    >) where
        Extra: SignedExtension<AccountId = AccountId, Call = Call, DispatchInfo = Info>,
        U: ValidateUnsigned<Call = Call>,
        Call: Dispatchable<AccountId = AccountId>,
        Info: Copy,

        ensures
            extends(old(journal)@, final(journal)@),
            apply_journal(self.signed, added_since(old(journal)@, final(journal)@), outcome_of(r)),
            self.signed is Inherent ==> r is Ok && self.function.dispatch_gave(None, r->Ok_0),
            self.signed is Normal ==> exists|pre: Result<Extra::Pre, TransactionValidityError>|
                #[trigger] self.signed->Normal_0.1.pre_dispatch_gave(
                    self.signed->Normal_0.0,
                    self.function,
                    info,
                    len,
                    pre,
                ) && added_since(old(journal)@, final(journal)@)[0].outcome == outcome_of(pre)
                    && match pre {
                    Err(e) => r == Err::<Call::Outcome, TransactionValidityError>(e),
                    Ok(p) => {
                        &&& r is Ok
                        &&& self.function.dispatch_gave(Some(self.signed->Normal_0.0), r->Ok_0)
                        &&& Extra::post_dispatched(p, info, len)
                    },
                },
            self.signed is Detached ==> exists|pre: Result<Extra::Pre, TransactionValidityError>|
                #[trigger] Extra::pre_dispatch_unsigned_gave(self.function, info, len, pre)
                    && added_since(old(journal)@, final(journal)@)[0].outcome == outcome_of(pre)
                    && match pre {
                    Err(e) => r == Err::<Call::Outcome, TransactionValidityError>(e),
                    Ok(p) => exists|checked: Result<(), TransactionValidityError>|
                        #[trigger] U::pre_dispatch_gave(self.function, checked)
                            && added_since(old(journal)@, final(journal)@)[1].outcome == outcome_of(checked)
                            && match checked {
                            Err(e) => r == Err::<Call::Outcome, TransactionValidityError>(e),
                            Ok(_) => {
                                &&& r is Ok
                                &&& self.function.dispatch_gave(None, r->Ok_0)
                                &&& Extra::post_dispatched(p, info, len)
                            },
                        },
                },
    {
        let ghost j0 = journal@;
        let ghost function_given = self.function;
        let function = self.function;
        match self.signed {
            ExtrinsicSignature::Inherent => {
                let res = function.dispatch(None);
                record(journal, Hook::Dispatch(false), Ok(()));
                proof {
                    lemma_grown_by(j0, journal@, seq![ran(Hook::Dispatch(false))]);
                }
                Ok(res)
            },
            ExtrinsicSignature::Normal((id, extra)) => {
                let ghost extra_given = extra;
                let ghost id_given = id;
                let pre = extra.pre_dispatch(&id, &function, info, len);
                record(journal, Hook::PreDispatch, status(&pre));
                let ghost first = journal@.last();
                let ghost pre_given = pre;
                assert(extra_given.pre_dispatch_gave(id_given, function_given, info, len, pre_given));
                match pre {
                    Err(e) => {
                        proof {
                            lemma_grown_by(j0, journal@, seq![first]);
                        }
                        Err(e)
                    },
                    Ok(pre) => {
                        let res = function.dispatch(Some(id));
                        record(journal, Hook::Dispatch(true), Ok(()));
                        Extra::post_dispatch(pre, info, len);
                        record(journal, Hook::PostDispatch, Ok(()));
                        proof {
                            lemma_grown_by(
                                j0,
                                journal@,
                                seq![first, ran(Hook::Dispatch(true)), ran(Hook::PostDispatch)],
                            );
                        }
                        Ok(res)
                    },
                }
            },
            ExtrinsicSignature::Detached => {
                let pre = Extra::pre_dispatch_unsigned(&function, info, len);
                record(journal, Hook::PreDispatchUnsigned, status(&pre));
                let ghost first = journal@.last();
                let ghost pre_given = pre;
                assert(Extra::pre_dispatch_unsigned_gave(function_given, info, len, pre_given));
                match pre {
                    Err(e) => {
                        proof {
                            lemma_grown_by(j0, journal@, seq![first]);
                        }
                        Err(e)
                    },
                    Ok(pre) => {
                        let checked = U::pre_dispatch(&function);
                        record(journal, Hook::ValidatorPreDispatch, status(&checked));
                        let ghost second = journal@.last();
                        let ghost checked_given = checked;
                        assert(U::pre_dispatch_gave(function_given, checked_given));
                        match checked {
                            Err(e) => {
                                proof {
                                    lemma_grown_by(j0, journal@, seq![first, second]);
                                }
                                Err(e)
                            },
                            Ok(()) => {
                                let res = function.dispatch(None);
                                record(journal, Hook::Dispatch(false), Ok(()));
                                Extra::post_dispatch(pre, info, len);
                                record(journal, Hook::PostDispatch, Ok(()));
                                proof {
                                    lemma_grown_by(
                                        j0,
                                        journal@,
                                        seq![
                                            first,
                                            second,
                                            ran(Hook::Dispatch(false)),
                                            ran(Hook::PostDispatch),
                                        ],
                                    );
                                }
                                Ok(res)
                            },
                        }
                    },
                }
            },
        }
    }
}

/// How many entries of `s` record `hook`.
pub open spec fn count_hook(s: Seq<HookRecord>, hook: Hook) -> nat
    decreases s.len(),
{
    if s.len() == 0 {
        0
    } else {
        count_hook(s.drop_last(), hook) + if s.last().hook == hook {
            1nat
        } else {
            0nat
        }
    }
}

pub open spec fn is_dispatch(h: Hook) -> bool {
    h is Dispatch
}

/// When `apply` of a signed or unsigned extrinsic fails its inclusion-time
/// checks, neither the call nor the post-dispatch hook has run.
pub proof fn lemma_refused_apply_runs_no_call<T>(
    signed: ExtrinsicSignature<T>,
    added: Seq<HookRecord>,
    r: Result<(), TransactionValidityError>,
)
    requires
        !(signed is Inherent),
        apply_journal(signed, added, r),
        r is Err,
    ensures
        forall|i: int| 0 <= i < added.len() ==> !is_dispatch(#[trigger] added[i].hook),
        count_hook(added, Hook::PostDispatch) == 0,
{
    reveal_with_fuel(count_hook, 3);
}

/// When `apply` of a signed or unsigned extrinsic passes its inclusion-time
/// checks, the call is dispatched once and post-dispatch runs exactly once,
/// after it, whatever the call returned.
pub proof fn lemma_accepted_apply_posts_once<T>(
    signed: ExtrinsicSignature<T>,
    added: Seq<HookRecord>,
    r: Result<(), TransactionValidityError>,
)
    requires
        !(signed is Inherent),
        apply_journal(signed, added, r),
        r is Ok,
    ensures
        count_hook(added, Hook::PostDispatch) == 1,
        added.last() == ran(Hook::PostDispatch),
        is_dispatch(added[added.len() - 2].hook),
{
    reveal_with_fuel(count_hook, 5);
}


/// An unsigned extrinsic is valid exactly when the chain and then the validator
/// both accept it; a refusal is that of the first check that refused.
pub proof fn lemma_unsigned_validity_is_conjunction<T>(
    added: Seq<HookRecord>,
    r: Result<(), TransactionValidityError>,
)
    requires
        validate_journal(ExtrinsicSignature::<T>::Detached, added, r),
    ensures
        r is Ok <==> (added.len() == 2 && added[0].outcome is Ok && added[1].outcome is Ok),
        r is Err ==> r == added[0].outcome || r == added[1].outcome,
        added[0].outcome is Err ==> added.len() == 1,
{
}

} // verus!
