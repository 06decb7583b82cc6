use vstd::prelude::*;
use crate::authority::{AuthorityUnit, AuthorityUnitView};
use crate::trace::{DecisionTrace, LiabilityRecord};

verus! {

/// Why a gated execution did not succeed.
#[derive(Debug, Clone)]
pub enum ExecutionGateError {
    InvalidAuthority(String),
    AlreadyConsumed(String),
    ScopeMismatch { authority_scope: String, action_scope: String },
    ActionFailed(String),
    LockError,
}

impl ExecutionGateError {
    pub open spec fn invalid_authority_of(self, id: Seq<char>) -> bool {
        match self {
            ExecutionGateError::InvalidAuthority(s) => s@ == id,
            _ => false,
        }
    }

    pub open spec fn already_consumed_of(self, id: Seq<char>) -> bool {
        match self {
            ExecutionGateError::AlreadyConsumed(s) => s@ == id,
            _ => false,
        }
    }

    pub open spec fn scope_mismatch_of(self, authority_scope: Seq<char>, action_scope: Seq<char>) -> bool {
        match self {
            ExecutionGateError::ScopeMismatch { authority_scope: a, action_scope: b } => a@
                == authority_scope && b@ == action_scope,
            _ => false,
        }
    }

    pub open spec fn action_failed_of(self, msg: Seq<char>) -> bool {
        match self {
            ExecutionGateError::ActionFailed(s) => s@ == msg,
            _ => false,
        }
    }
}

/// The check-and-mark step admits the unit: the validator accepted it, it is
/// not consumed yet, and its scope covers the action's.
pub open spec fn admits(
    consumed: Set<Seq<char>>,
    valid: bool,
    au: AuthorityUnitView,
    action_scope: Seq<char>,
) -> bool {
    valid && !consumed.contains(au.id) && au.consumes(action_scope)
}

/// The consumed set after the check-and-mark step.
pub open spec fn after_admission(
    consumed: Set<Seq<char>>,
    valid: bool,
    au: AuthorityUnitView,
    action_scope: Seq<char>,
) -> Set<Seq<char>> {
    if admits(consumed, valid, au, action_scope) {
        consumed.insert(au.id)
    } else {
        consumed
    }
}

/// The audit pair minted for a successful action of `au`.
pub open spec fn records_for(
    dt: DecisionTrace,
    lr: LiabilityRecord,
    au: AuthorityUnitView,
    action_name: Seq<char>,
    result: Seq<char>,
) -> bool {
    &&& dt.action_name@ == action_name
    &&& dt.authority_id@ == au.id
    &&& dt.result@ == result
    &&& lr.trace_id == dt.id
    &&& lr.authority_id@ == au.id
    &&& lr.price == au.price
    &&& lr.scope@ == au.scope
}

/// What a gated execution returns and leaves behind, given the consumed set
/// before it, the validator's verdict and the action's outcome (which only
/// counts when the unit was admitted).
pub open spec fn gated(
    consumed: Set<Seq<char>>,
    valid: bool,
    au: AuthorityUnitView,
    action_scope: Seq<char>,
    action_name: Seq<char>,
    outcome: Result<String, String>,
    r: Result<(DecisionTrace, LiabilityRecord), ExecutionGateError>,
    after: Set<Seq<char>>,
) -> bool {
    if !valid {
        r is Err && r->Err_0.invalid_authority_of(au.id) && after == consumed
    } else if consumed.contains(au.id) {
        r is Err && r->Err_0.already_consumed_of(au.id) && after == consumed
    } else if !au.consumes(action_scope) {
        r is Err && r->Err_0.scope_mismatch_of(au.scope, action_scope) && after == consumed
    } else {
        match outcome {
            Ok(result) => r is Ok && records_for(r->Ok_0.0, r->Ok_0.1, au, action_name, result@)
                && after == consumed.insert(au.id),
            Err(msg) => r is Err && r->Err_0.action_failed_of(msg@) && after == consumed,
        }
    }
}

/// Once a gated execution of `au` has succeeded, any later execution of it
/// that the validator accepts is refused as already consumed, whatever its
/// scope or action, and consumes nothing.
pub proof fn lemma_spent_unit_refused(
    consumed: Set<Seq<char>>,
    au: AuthorityUnitView,
    scope1: Seq<char>,
    name1: Seq<char>,
    outcome1: Result<String, String>,
    r1: Result<(DecisionTrace, LiabilityRecord), ExecutionGateError>,
    after1: Set<Seq<char>>,
    scope2: Seq<char>,
    name2: Seq<char>,
    outcome2: Result<String, String>,
    r2: Result<(DecisionTrace, LiabilityRecord), ExecutionGateError>,
    after2: Set<Seq<char>>,
)
    requires
        gated(consumed, true, au, scope1, name1, outcome1, r1, after1),
        r1 is Ok,
        gated(after1, true, au, scope2, name2, outcome2, r2, after2),
    ensures
        after1.contains(au.id),
        r2 is Err && r2->Err_0.already_consumed_of(au.id),
        after2 == after1,
{
}

/// A failed action leaves its unit unconsumed, so that a later execution of
/// the same unit and scope whose action succeeds goes through.
pub proof fn lemma_failure_rolls_back(
    consumed: Set<Seq<char>>,
    au: AuthorityUnitView,
    scope: Seq<char>,
    name1: Seq<char>,
    msg: String,
    r1: Result<(DecisionTrace, LiabilityRecord), ExecutionGateError>,
    after1: Set<Seq<char>>,
    name2: Seq<char>,
    result: String,
    r2: Result<(DecisionTrace, LiabilityRecord), ExecutionGateError>,
    after2: Set<Seq<char>>,
)
    requires
        admits(consumed, true, au, scope),
        gated(consumed, true, au, scope, name1, Err(msg), r1, after1),
        gated(after1, true, au, scope, name2, Ok(result), r2, after2),
    ensures
        r1 is Err && r1->Err_0.action_failed_of(msg@),
        !after1.contains(au.id),
        r2 is Ok,
        after2.contains(au.id),
{
}

/// How many of `n` successive check-and-mark steps for `au`, each accepted by
/// the validator, admit it.
pub open spec fn admissions(
    consumed: Set<Seq<char>>,
    au: AuthorityUnitView,
    action_scope: Seq<char>,
    n: nat,
) -> nat
    decreases n,
{
    if n == 0 {
        0
    } else {
        (if admits(consumed, true, au, action_scope) {
            1nat
        } else {
            0nat
        }) + admissions(after_admission(consumed, true, au, action_scope), au, action_scope, (n
            - 1) as nat)
    }
}

/// How many of those steps are refused because `au` is already consumed.
pub open spec fn refusals_as_consumed(
    consumed: Set<Seq<char>>,
    au: AuthorityUnitView,
    action_scope: Seq<char>,
    n: nat,
) -> nat
    decreases n,
{
    if n == 0 {
        0
    } else {
        (if consumed.contains(au.id) {
            1nat
        } else {
            0nat
        }) + refusals_as_consumed(
            after_admission(consumed, true, au, action_scope),
            au,
            action_scope,
            (n - 1) as nat,
        )
    }
}

/// Of `n` attempts on one unconsumed unit whose actions all succeed, in
/// whatever order the consumption lock serializes their check-and-mark steps,
/// exactly one is admitted and the other `n - 1` are refused as consumed.
pub proof fn lemma_exactly_once(
    consumed: Set<Seq<char>>,
    au: AuthorityUnitView,
    action_scope: Seq<char>,
    n: nat,
)
    requires
        n >= 1,
        !consumed.contains(au.id),
        au.consumes(action_scope),
    ensures
        admissions(consumed, au, action_scope, n) == 1,
        refusals_as_consumed(consumed, au, action_scope, n) == n - 1,
{
    let spent = consumed.insert(au.id);
    lemma_all_refused(spent, au, action_scope, (n - 1) as nat);
}

proof fn lemma_all_refused(
    consumed: Set<Seq<char>>,
    au: AuthorityUnitView,
    action_scope: Seq<char>,
    n: nat,
)
    requires
        consumed.contains(au.id),
    ensures
        admissions(consumed, au, action_scope, n) == 0,
        refusals_as_consumed(consumed, au, action_scope, n) == n,
    decreases n,
{
    if n > 0 {
        lemma_all_refused(consumed, au, action_scope, (n - 1) as nat);
    }
}

/// Mints the audit pair for a successful action of `au`.
pub fn mint_records(au: &AuthorityUnit, action_name: &str, result: String) -> (r: (
    DecisionTrace,
    LiabilityRecord,
))
    ensures
        records_for(r.0, r.1, au@, action_name@, result@),
{
    let dt = DecisionTrace::new(action_name.to_owned(), au.id.clone(), result);
    let lr = LiabilityRecord::new(dt.id.clone(), au.id.clone(), au.price, au.scope.clone());
    (dt, lr)
}

/// The identifiers of the units consumed through one gate.
pub struct ConsumedSet {
    ids: Vec<String>,
}

impl View for ConsumedSet {
    type V = Set<Seq<char>>;

    closed spec fn view(&self) -> Set<Seq<char>> {
        Set::new(|k: Seq<char>| exists|i: int| 0 <= i < self.ids@.len() && self.ids@[i]@ == k)
    }
}

impl ConsumedSet {
    /// No identifier is held twice.
    pub closed spec fn wf(&self) -> bool {
        forall|i: int, j: int|
            0 <= i < self.ids@.len() && 0 <= j < self.ids@.len() && i != j ==> self.ids@[i]@
                != self.ids@[j]@
    }

    pub fn new() -> (r: Self)
        ensures
            r.wf(),
            r@ == Set::<Seq<char>>::empty(),
    {
        let r = ConsumedSet { ids: Vec::new() };
        assert(r@ =~= Set::<Seq<char>>::empty());
        r
    }

    fn position(&self, id: &String) -> (r: Option<usize>)
        ensures
            match r {
                Some(i) => i < self.ids@.len() && self.ids@[i as int]@ == id@,
                None => !self@.contains(id@),
            },
    {
        let mut i: usize = 0;
        while i < self.ids.len()
            invariant
                i <= self.ids@.len(),
                forall|j: int| 0 <= j < i ==> self.ids@[j]@ != id@,
            decreases self.ids@.len() - i,
        {
            if self.ids[i] == *id {
                return Some(i);
            }
            i = i + 1;
        }
        None
    }

    pub fn contains(&self, id: &str) -> (r: bool)
        ensures
            r == self@.contains(id@),
    {
        let key = id.to_owned();
        let r = self.position(&key);
        if let Some(i) = r {
            assert(self@.contains(self.ids@[i as int]@));
        }
        r.is_some()
    }

    fn insert(&mut self, id: String)
        requires
            old(self).wf(),
            !old(self)@.contains(id@),
        ensures
            final(self).wf(),
            final(self)@ == old(self)@.insert(id@),
    {
        let ghost k = id@;
        self.ids.push(id);
        assert(self@ =~= old(self)@.insert(k)) by {
            assert forall|x: Seq<char>| old(self)@.contains(x) implies self@.contains(x) by {
                let i = choose|i: int| 0 <= i < old(self).ids@.len() && old(self).ids@[i]@ == x;
                assert(self.ids@[i]@ == x);
            }
            assert(self.ids@[self.ids@.len() - 1]@ == k);
        }
    }

    fn remove(&mut self, id: &String)
        requires
            old(self).wf(),
        ensures
            final(self).wf(),
            final(self)@ == old(self)@.remove(id@),
    {
        match self.position(id) {
            None => {
                assert(self@ =~= old(self)@.remove(id@));
            },
            Some(i) => {
                let ghost before = self.ids@;
                self.ids.remove(i);
                assert(self@ =~= old(self)@.remove(id@)) by {
                    assert forall|x: Seq<char>| self@.contains(x) implies old(self)@.remove(
                        id@,
                    ).contains(x) by {
                        let j = choose|j: int| 0 <= j < self.ids@.len() && self.ids@[j]@ == x;
                        if j < i {
                            assert(before[j]@ == x);
                        } else {
                            assert(before[j + 1]@ == x);
                        }
                    }
                    assert forall|x: Seq<char>| old(self)@.remove(id@).contains(x) implies self@.contains(
                        x,
                    ) by {
                        let j = choose|j: int| 0 <= j < before.len() && before[j]@ == x;
                        if j < i {
                            assert(self.ids@[j]@ == x);
                        } else {
                            assert(j != i);
                            assert(self.ids@[j - 1]@ == x);
                        }
                    }
                }
            },
        }
    }

    /// The check-and-mark step of a gated execution, given the validator's
    /// verdict on `au`: the first failed check decides the error; when all
    /// pass, `au`'s identifier is marked consumed.
    pub fn begin(&mut self, valid: bool, au: &AuthorityUnit, action_scope: &str) -> (r: Result<
        (),
        ExecutionGateError,
    >)
        requires
            old(self).wf(),
        ensures
            final(self).wf(),
            final(self)@ == after_admission(old(self)@, valid, au@, action_scope@),
            r is Ok <==> admits(old(self)@, valid, au@, action_scope@),
            !valid ==> r is Err && r->Err_0.invalid_authority_of(au@.id),
            valid && old(self)@.contains(au@.id) ==> r is Err && r->Err_0.already_consumed_of(
                au@.id,
            ),
            valid && !old(self)@.contains(au@.id) && !au@.consumes(action_scope@) ==> r is Err
                && r->Err_0.scope_mismatch_of(au@.scope, action_scope@),
    {
        if !valid {
            return Err(ExecutionGateError::InvalidAuthority(au.id.clone()));
        }
        if self.contains(au.id.as_str()) {
            return Err(ExecutionGateError::AlreadyConsumed(au.id.clone()));
        }
        if !au.can_consume(action_scope) {
            return Err(
                ExecutionGateError::ScopeMismatch {
                    authority_scope: au.scope.clone(),
                    action_scope: action_scope.to_owned(),
                },
            );
        }
        self.insert(au.id.clone());
        Ok(())
    }

    /// The closing step, given the action's outcome: on success the audit
    /// pair is minted and the mark stays; on failure the mark is rolled back.
    pub fn finish(
        &mut self,
        au: &AuthorityUnit,
        action_name: &str,
        outcome: Result<String, String>,
    ) -> (r: Result<(DecisionTrace, LiabilityRecord), ExecutionGateError>)
        requires
            old(self).wf(),
        ensures
            final(self).wf(),
            outcome is Ok ==> r is Ok && records_for(
                r->Ok_0.0,
                r->Ok_0.1,
                au@,
                action_name@,
                outcome->Ok_0@,
            ) && final(self)@ == old(self)@,
            outcome is Err ==> r is Err && r->Err_0.action_failed_of(outcome->Err_0@)
                && final(self)@ == old(self)@.remove(au@.id),
    {
        match outcome {
            Ok(result) => Ok(mint_records(au, action_name, result)),
            Err(e) => {
                self.remove(&au.id);
                Err(ExecutionGateError::ActionFailed(e))
            },
        }
    }
}

/// Guard around action execution: an injected validity predicate and the
/// set of units consumed through this gate.
pub struct ExecutionGate<F: Fn(&AuthorityUnit) -> bool> {
    validator: F,
    consumed: ConsumedSet,
}

impl<F: Fn(&AuthorityUnit) -> bool> ExecutionGate<F> {
    /// The injected validity predicate.
    pub closed spec fn validator(&self) -> F {
        self.validator
    }

    /// The identifiers currently marked consumed.
    pub closed spec fn consumed_ids(&self) -> Set<Seq<char>> {
        self.consumed@
    }

    pub closed spec fn wf(&self) -> bool {
        self.consumed.wf()
    }

    pub fn new(validator: F) -> (r: Self)
        ensures
            r.wf(),
            r.validator() == validator,
            r.consumed_ids() == Set::<Seq<char>>::empty(),
    {
        ExecutionGate { validator, consumed: ConsumedSet::new() }
    }

    pub fn is_consumed(&self, au_id: &str) -> (r: Result<bool, ExecutionGateError>)
        ensures
            r is Ok && r->Ok_0 == self.consumed_ids().contains(au_id@),
    {
        Ok(self.consumed.contains(au_id))
    }

    /// Validates `au`, marks it consumed if it is not yet and its scope covers
    /// `action_scope`, runs the action, and mints the audit pair; a failed
    /// action rolls the mark back.
    pub fn execute_with_authority<A: Fn() -> Result<String, String>>(
        &mut self,
        au: &AuthorityUnit,
        action_fn: &A,
        action_name: &str,
        action_scope: &str,
    ) -> (r: Result<(DecisionTrace, LiabilityRecord), ExecutionGateError>)
        requires
            old(self).wf(),
            old(self).validator().requires((au,)),
            action_fn.requires(()),
        ensures
            final(self).wf(),
            final(self).validator() == old(self).validator(),
            exists|valid: bool, outcome: Result<String, String>|
                {
                    &&& old(self).validator().ensures((au,), valid)
                    &&& admits(old(self).consumed_ids(), valid, au@, action_scope@)
                        ==> action_fn.ensures((), outcome)
                    &&& gated(
                        old(self).consumed_ids(),
                        valid,
                        au@,
                        action_scope@,
                        action_name@,
                        outcome,
                        r,
                        final(self).consumed_ids(),
                    )
                },
    {
        let valid = (self.validator)(au);
        let ghost before = self.consumed_ids();
        match self.consumed.begin(valid, au, action_scope) {
            Err(e) => {
                let r = Err(e);
                let ghost outcome: Result<String, String> = arbitrary();
                assert(gated(before, valid, au@, action_scope@, action_name@, outcome, r, self.consumed_ids()));
                r
            },
            Ok(()) => {
                let outcome = action_fn();
                let ghost seen = outcome;
                let r = self.consumed.finish(au, action_name, outcome);
                assert(before.insert(au@.id).remove(au@.id) =~= before);
                assert(gated(before, valid, au@, action_scope@, action_name@, seen, r, self.consumed_ids()));
                r
            },
        }
    }
}

} // verus!
