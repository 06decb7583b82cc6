use vstd::prelude::*;
use crate::authority::{AuthorityUnit, AuthorityUnitView};
use crate::gate::gated;
use crate::trace::{current_timestamp, DecisionTrace, LiabilityRecord};
use crate::gate::ExecutionGateError;

verus! {

/// Why an issuance failed.
#[derive(Debug, Clone)]
pub enum ManagerError {
    DuplicateAuthority(String),
    LockError,
}

/// The age limit of a manager built with `new`: one hour.
pub const DEFAULT_MAX_AGE_SECONDS: i64 = 3600;

/// What a manager holds: the issued units by identifier, and the age limit.
pub struct ManagerView {
    pub units: Map<Seq<char>, AuthorityUnitView>,
    pub max_age: int,
}

/// Issuing `au` into `units`: the new map, and whether the issuance succeeded.
/// An identifier that is already present leaves the map as it was.
pub open spec fn issue_step(
    units: Map<Seq<char>, AuthorityUnitView>,
    au: AuthorityUnitView,
) -> (Map<Seq<char>, AuthorityUnitView>, bool) {
    if units.contains_key(au.id) {
        (units, false)
    } else {
        (units.insert(au.id, au), true)
    }
}

/// A manager in state `m` accepts `au` at time `now`: the unit stored under
/// its identifier equals it in every field and is within the age limit.
pub open spec fn accepts(m: ManagerView, au: AuthorityUnitView, now: int) -> bool {
    m.units.contains_key(au.id) && m.units[au.id] == au && au.valid_at(now, m.max_age)
}

/// Issuing a unit under a fresh identifier succeeds and stores it; issuing
/// any unit under that identifier again fails and keeps the first one.
pub proof fn lemma_issue_once(
    units: Map<Seq<char>, AuthorityUnitView>,
    first: AuthorityUnitView,
    second: AuthorityUnitView,
)
    requires
        !units.contains_key(first.id),
        second.id == first.id,
    ensures
        issue_step(units, first).1,
        !issue_step(issue_step(units, first).0, second).1,
        issue_step(issue_step(units, first).0, second).0[first.id] == first,
{
}

/// A copy of a stored unit that differs from it in any field is rejected,
/// although it carries the same identifier.
pub proof fn lemma_altered_copy_rejected(
    m: ManagerView,
    stored: AuthorityUnitView,
    presented: AuthorityUnitView,
    now: int,
)
    requires
        m.units.contains_key(stored.id),
        m.units[stored.id] == stored,
        presented.id == stored.id,
        presented != stored,
    ensures
        !accepts(m, presented, now),
{
}

/// End to end: a unit issued under a fresh identifier, presented within the
/// age limit to a gate whose validator is the manager's acceptance, with an
/// action that succeeds, is executed and yields the action's result and the
/// unit's price; the same call afterwards is refused as already consumed.
pub proof fn lemma_issue_then_execute_once(
    units: Map<Seq<char>, AuthorityUnitView>,
    max_age: int,
    au: AuthorityUnitView,
    consumed: Set<Seq<char>>,
    scope: Seq<char>,
    name: Seq<char>,
    now1: int,
    result: String,
    r1: Result<(DecisionTrace, LiabilityRecord), ExecutionGateError>,
    after1: Set<Seq<char>>,
    now2: int,
    outcome2: Result<String, String>,
    r2: Result<(DecisionTrace, LiabilityRecord), ExecutionGateError>,
    after2: Set<Seq<char>>,
)
    requires
        !units.contains_key(au.id),
        !consumed.contains(au.id),
        au.consumes(scope),
        au.valid_at(now1, max_age),
        au.valid_at(now2, max_age),
        gated(
            consumed,
            accepts((ManagerView { units: issue_step(units, au).0, max_age }), au, now1),
            au,
            scope,
            name,
            Ok(result),
            r1,
            after1,
        ),
        gated(
            after1,
            accepts((ManagerView { units: issue_step(units, au).0, max_age }), au, now2),
            au,
            scope,
            name,
            outcome2,
            r2,
            after2,
        ),
    ensures
        r1 is Ok,
        r1->Ok_0.0.result@ == result@,
        r1->Ok_0.0.authority_id@ == au.id,
        r1->Ok_0.1.price == au.price,
        r2 is Err && r2->Err_0.already_consumed_of(au.id),
        after2 == after1,
{
}

/// The map that a list of units with distinct identifiers stands for.
pub open spec fn units_map(s: Seq<AuthorityUnitView>) -> Map<Seq<char>, AuthorityUnitView>
    decreases s.len(),
{
    if s.len() == 0 {
        Map::empty()
    } else {
        units_map(s.drop_last()).insert(s.last().id, s.last())
    }
}

pub open spec fn distinct_ids(s: Seq<AuthorityUnitView>) -> bool {
    forall|i: int, j: int|
        0 <= i < s.len() && 0 <= j < s.len() && i != j ==> s[i].id != s[j].id
}

proof fn lemma_units_map(s: Seq<AuthorityUnitView>, k: Seq<char>)
    requires
        distinct_ids(s),
    ensures
        units_map(s).contains_key(k) <==> exists|i: int| 0 <= i < s.len() && s[i].id == k,
        forall|i: int| 0 <= i < s.len() && s[i].id == k ==> units_map(s)[k] == s[i],
    decreases s.len(),
{
    if s.len() > 0 {
        let t = s.drop_last();
        assert(distinct_ids(t));
        lemma_units_map(t, k);
        if units_map(t).contains_key(k) {
            let i = choose|i: int| 0 <= i < t.len() && t[i].id == k;
            assert(s[i].id == k);
        }
        if exists|i: int| 0 <= i < s.len() && s[i].id == k {
            let i = choose|i: int| 0 <= i < s.len() && s[i].id == k;
            if i < t.len() {
                assert(t[i].id == k);
            }
        }
        if s.last().id == k {
            assert(s[s.len() - 1].id == k);
        }
        assert forall|i: int| 0 <= i < s.len() && s[i].id == k implies units_map(s)[k] == s[i] by {
            if i < t.len() {
                assert(t[i] == s[i]);
                assert(s[i].id != s[s.len() - 1].id);
            }
        }
    }
}

/// Store of issued authority units: issue-once, validate by exact equality
/// and age, look up by identifier.
pub struct AuthorityManager {
    authorities: Vec<AuthorityUnit>,
    max_age_seconds: i64,
}

impl View for AuthorityManager {
    type V = ManagerView;

    closed spec fn view(&self) -> ManagerView {
        ManagerView {
            units: units_map(self.authorities@.map_values(|u: AuthorityUnit| u@)),
            max_age: self.max_age_seconds as int,
        }
    }
}

impl AuthorityManager {
    /// No two stored units share an identifier.
    pub closed spec fn wf(&self) -> bool {
        distinct_ids(self.authorities@.map_values(|u: AuthorityUnit| u@))
    }

    pub fn new() -> (r: Self)
        ensures
            r.wf(),
            r@.units == Map::<Seq<char>, AuthorityUnitView>::empty(),
            r@.max_age == DEFAULT_MAX_AGE_SECONDS,
    {
        Self::with_max_age(DEFAULT_MAX_AGE_SECONDS)
    }

    pub fn with_max_age(max_age_seconds: i64) -> (r: Self)
        ensures
            r.wf(),
            r@.units == Map::<Seq<char>, AuthorityUnitView>::empty(),
            r@.max_age == max_age_seconds,
    {
        let r = AuthorityManager { authorities: Vec::new(), max_age_seconds };
        assert(r.authorities@.map_values(|u: AuthorityUnit| u@) =~= Seq::<
            AuthorityUnitView,
        >::empty());
        r
    }

    /// Index of the stored unit with identifier `id`, if any.
    fn position(&self, id: &String) -> (r: Option<usize>)
        requires
            self.wf(),
        ensures
            match r {
                Some(i) => i < self.authorities@.len() && self.authorities@[i as int].id@ == id@
                    && self@.units.contains_key(id@) && self@.units[id@]
                    == self.authorities@[i as int]@,
                None => !self@.units.contains_key(id@),
            },
    {
        let ghost s = self.authorities@.map_values(|u: AuthorityUnit| u@);
        proof {
            lemma_units_map(s, id@);
        }
        let mut i: usize = 0;
        while i < self.authorities.len()
            invariant
                i <= self.authorities@.len(),
                self.wf(),
                s == self.authorities@.map_values(|u: AuthorityUnit| u@),
                forall|j: int| 0 <= j < i ==> self.authorities@[j].id@ != id@,
            decreases self.authorities@.len() - i,
        {
            if self.authorities[i].id == *id {
                assert(s[i as int].id == id@);
                assert(s[i as int] == self.authorities@[i as int]@);
                proof {
                    lemma_units_map(s, id@);
                }
                return Some(i);
            }
            i = i + 1;
        }
        proof {
            lemma_units_map(s, id@);
            if self@.units.contains_key(id@) {
                let j = choose|j: int| 0 <= j < s.len() && s[j].id == id@;
                assert(self.authorities@[j].id@ == id@);
            }
        }
        None
    }

    /// Registers `au` under its identifier, unless one is already stored.
    pub fn issue_authority(&mut self, au: AuthorityUnit) -> (r: Result<(), ManagerError>)
        requires
            old(self).wf(),
        ensures
            final(self).wf(),
            final(self)@.max_age == old(self)@.max_age,
            final(self)@.units == issue_step(old(self)@.units, au@).0,
            r is Ok <==> issue_step(old(self)@.units, au@).1,
            r is Err ==> r->Err_0 is DuplicateAuthority && r->Err_0->DuplicateAuthority_0@
                == au@.id,
    {
        match self.position(&au.id) {
            Some(_) => Err(ManagerError::DuplicateAuthority(au.id.clone())),
            None => {
                let ghost s = self.authorities@.map_values(|u: AuthorityUnit| u@);
                let ghost v = au@;
                proof {
                    lemma_units_map(s, v.id);
                }
                self.authorities.push(au);
                let ghost t = self.authorities@.map_values(|u: AuthorityUnit| u@);
                assert(t =~= s.push(v));
                assert(t.drop_last() =~= s);
                assert(forall|j: int| 0 <= j < s.len() ==> s[j].id != v.id);
                Ok(())
            },
        }
    }

    /// The unit stored under `au_id`, if any.
    pub fn get_authority(&self, au_id: &str) -> (r: Option<AuthorityUnit>)
        requires
            self.wf(),
        ensures
            r is Some <==> self@.units.contains_key(au_id@),
            r is Some ==> r->Some_0@ == self@.units[au_id@],
    {
        let key = au_id.to_owned();
        match self.position(&key) {
            Some(i) => Some(self.authorities[i].clone()),
            None => None,
        }
    }

    /// Validation at a given time: a unit is stored under `au`'s identifier,
    /// equals `au` in every field, and is within the age limit at `now`.
    pub fn validate_authority_at(&self, au: &AuthorityUnit, now: i64) -> (r: bool)
        requires
            self.wf(),
        ensures
            r == accepts(self@, au@, now as int),
    {
        match self.position(&au.id) {
            Some(i) => {
                let stored = &self.authorities[i];
                stored.same_as(au) && stored.is_valid(now, self.max_age_seconds)
            },
            None => false,
        }
    }

    /// Validation at the current wall-clock time.
    pub fn validate_authority(&self, au: &AuthorityUnit) -> (r: bool)
        requires
            self.wf(),
        ensures
            r ==> self@.units.contains_key(au@.id) && self@.units[au@.id] == au@,
            exists|now: i64| now >= 0 && r == accepts(self@, au@, now as int),
    {
        let now = current_timestamp();
        let r = self.validate_authority_at(au, now);
        assert(now >= 0 && r == accepts(self@, au@, now as int));
        r
    }
}

impl Default for AuthorityManager {
    fn default() -> (r: Self)
        ensures
            r.wf(),
            r@.units == Map::<Seq<char>, AuthorityUnitView>::empty(),
            r@.max_age == DEFAULT_MAX_AGE_SECONDS,
    {
        Self::new()
    }
}

} // verus!
