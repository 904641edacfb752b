use vstd::multiset::Multiset;
use vstd::prelude::*;

use crate::runtime::{new_identifier, now_timestamp};

verus! {

/// The cohort ("flight") a user can be placed in.
#[derive(Clone, Copy, Debug, PartialEq, Eq, Structural)]
pub enum Flight {
    Beddoe,
    Morgan,
    Spear,
    Bell,
    Hill,
}

/// One item of an inspection's rubric.
#[derive(Clone, Debug, PartialEq, Eq)]
pub enum Criteria {
    PassFail(CriteriaPassFail),
    Graded(CriteriaGraded),
    Comment(Option<String>),
}

/// A criterion that is either met or not.
#[derive(Clone, Debug, PartialEq, Eq)]
pub struct CriteriaPassFail {
    pub category_name: String,
    pub description: String,
    pub state: Option<bool>,
}

/// A criterion graded on a scale: the index of the selected description is
/// the score, the number of descriptions is what it is out of.
#[derive(Clone, Debug, PartialEq, Eq)]
pub struct CriteriaGraded {
    pub category_name: String,
    pub description: Vec<String>,
    pub state: Option<u8>,
}

/// A scored rubric evaluation recorded against a user.
///
/// `score` and `out_of` are derived from `criteria`; they are recomputed
/// whenever an inspection is stored or read and never trusted from input.
#[derive(Clone, Debug, PartialEq, Eq)]
pub struct Inspection {
    pub name: String,
    pub criteria: Vec<Criteria>,
    pub date: Option<i64>,
    pub out_of: Option<u16>,
    pub score: Option<u16>,
}

impl Default for Inspection {
    /// An unnamed inspection with no criteria, no date and no score.
    fn default() -> (r: Self)
        ensures
            r.name@.len() == 0,
            r.criteria@.len() == 0,
            r.date is None,
            r.out_of is None,
            r.score is None,
    {
        Inspection { name: String::new(), criteria: Vec::new(), date: None, out_of: None, score: None }
    }
}

/// The (score, out of) pair of an inspection.
#[derive(Clone, Copy, Debug, PartialEq, Eq, Structural)]
pub struct InspectionScore {
    pub score: u16,
    pub out_of: u16,
}

/// What one criterion adds to the score.
pub open spec fn criterion_score(c: Criteria) -> int {
    match c {
        Criteria::PassFail(p) => if p.state == Some(true) { 1 } else { 0 },
        Criteria::Graded(g) => match g.state {
            Some(s) => if (s as int) < g.description@.len() { s as int } else { 0 },
            None => 0,
        },
        Criteria::Comment(_) => 0,
    }
}

/// What one criterion adds to the total the score is out of.
pub open spec fn criterion_out_of(c: Criteria) -> int {
    match c {
        Criteria::PassFail(_) => 1,
        Criteria::Graded(g) => g.description@.len() as int,
        Criteria::Comment(_) => 0,
    }
}

/// The score of a list of criteria: the sum of what each adds.
pub open spec fn total_score(cs: Seq<Criteria>) -> int
    decreases cs.len(),
{
    if cs.len() == 0 {
        0
    } else {
        total_score(cs.drop_last()) + criterion_score(cs.last())
    }
}

/// What a list of criteria is scored out of: the sum of what each adds.
pub open spec fn total_out_of(cs: Seq<Criteria>) -> int
    decreases cs.len(),
{
    if cs.len() == 0 {
        0
    } else {
        total_out_of(cs.drop_last()) + criterion_out_of(cs.last())
    }
}

/// The totals of these criteria fit the 16-bit fields that hold them.
pub open spec fn criteria_fit(cs: Seq<Criteria>) -> bool {
    total_out_of(cs) <= u16::MAX
}

/// Score and total of each prefix are bounded by those of the whole list.
pub proof fn lemma_totals_bounded(cs: Seq<Criteria>, i: int)
    requires
        0 <= i <= cs.len(),
    ensures
        0 <= total_score(cs.take(i)) <= total_out_of(cs.take(i)) <= total_out_of(cs),
        total_score(cs) <= total_out_of(cs),
    decreases cs.len(),
{
    if cs.len() > 0 {
        let prefix = cs.drop_last();
        if i < cs.len() {
            assert(cs.take(i) =~= prefix.take(i));
            lemma_totals_bounded(prefix, i);
        } else {
            assert(cs.take(i) =~= cs);
            lemma_totals_bounded(prefix, prefix.len() as int);
            assert(prefix.take(prefix.len() as int) =~= prefix);
        }
        lemma_totals_bounded(prefix, prefix.len() as int);
        assert(prefix.take(prefix.len() as int) =~= prefix);
    } else {
        assert(cs.take(i) =~= cs);
    }
}

/// Score and total of a list of criteria, in 16-bit fields.
fn tally(criteria: &Vec<Criteria>) -> (r: (u16, u16))
    requires
        criteria_fit(criteria@),
    ensures
        r.0 as int == total_score(criteria@),
        r.1 as int == total_out_of(criteria@),
{
    let mut score: u16 = 0;
    let mut out_of: u16 = 0;
    let mut i: usize = 0;
    while i < criteria.len()
        invariant
            i <= criteria@.len(),
            criteria_fit(criteria@),
            score as int == total_score(criteria@.take(i as int)),
            out_of as int == total_out_of(criteria@.take(i as int)),
        decreases criteria@.len() - i,
    {
        let ghost cs = criteria@;
        proof {
            assert(cs.take(i + 1).drop_last() =~= cs.take(i as int));
            lemma_totals_bounded(cs, i + 1);
        }
        match &criteria[i] {
            Criteria::PassFail(p) => {
                if p.state == Some(true) {
                    score = score + 1;
                }
                out_of = out_of + 1;
            },
            Criteria::Graded(g) => {
                match g.state {
                    Some(s) => {
                        if (s as usize) < g.description.len() {
                            score = score + s as u16;
                        }
                    },
                    None => {},
                }
                out_of = out_of + g.description.len() as u16;
            },
            Criteria::Comment(_) => {},
        }
        i = i + 1;
    }
    proof {
        assert(criteria@.take(i as int) =~= criteria@);
    }
    (score, out_of)
}

impl Inspection {
    /// The score of this inspection stays in range of its 16-bit fields.
    pub open spec fn fits(&self) -> bool {
        criteria_fit(self.criteria@)
    }

    /// Whether the totals of this inspection fit its 16-bit fields.
    pub fn score_fits(&self) -> (r: bool)
        ensures
            r == self.fits(),
    {
        let mut out_of: u64 = 0;
        let mut i: usize = 0;
        while i < self.criteria.len()
            invariant
                i <= self.criteria@.len(),
                out_of as int == total_out_of(self.criteria@.take(i as int)),
                out_of <= u16::MAX,
            decreases self.criteria@.len() - i,
        {
            let ghost cs = self.criteria@;
            proof {
                assert(cs.take(i + 1).drop_last() =~= cs.take(i as int));
            }
            match &self.criteria[i] {
                Criteria::PassFail(_) => {
                    out_of = out_of + 1;
                },
                Criteria::Graded(g) => {
                    if g.description.len() > u16::MAX as usize {
                        proof {
                            lemma_totals_bounded(cs, i + 1);
                        }
                        return false;
                    }
                    out_of = out_of + g.description.len() as u64;
                },
                Criteria::Comment(_) => {},
            }
            if out_of > u16::MAX as u64 {
                proof {
                    lemma_totals_bounded(cs, i + 1);
                }
                return false;
            }
            i = i + 1;
        }
        proof {
            assert(self.criteria@.take(i as int) =~= self.criteria@);
        }
        true
    }

    /// Recomputes `score` and `out_of` from the criteria, leaving the rest as it is.
    pub fn compute_score(&mut self)
        requires
            old(self).fits(),
        ensures
            *final(self) == scored(*old(self)),
    {
        let (score, out_of) = tally(&self.criteria);
        self.score = Some(score);
        self.out_of = Some(out_of);
    }

    /// The score of this inspection, computed from its criteria.
    pub fn get_score(&self) -> (r: InspectionScore)
        requires
            self.fits(),
        ensures
            r.score as int == total_score(self.criteria@),
            r.out_of as int == total_out_of(self.criteria@),
    {
        let (score, out_of) = tally(&self.criteria);
        InspectionScore { score, out_of }
    }
}

/// A person whose inspections are tracked, stored as one document keyed by
/// `uuid`.
#[derive(Clone, Debug)]
pub struct User {
    pub username: Option<String>,
    pub uuid: String,
    pub inspections: Vec<Inspection>,
    pub flight: Option<Flight>,
    pub dev_user: bool,
}

/// Why a request on the stored documents could not be served.
#[derive(Clone, Copy, Debug, PartialEq, Eq, Structural)]
pub enum RequestError {
    /// No such document, or it cannot be read.
    NotFound,
    /// The name is already taken or already claimed.
    Conflict,
    /// The token matched but has expired.
    Unauthorized,
    /// The token is absent or does not match the stored one.
    Forbidden,
    /// The request's content cannot be stored or encoded.
    MalformedInput,
}

/// The sort key of an inspection's date: a missing date is earlier than any.
pub open spec fn date_key(d: Option<i64>) -> int {
    match d {
        Some(t) => t as int,
        None => i64::MIN - 1,
    }
}

/// Whether date `a` sorts strictly after date `b`.
pub fn date_after(a: Option<i64>, b: Option<i64>) -> (r: bool)
    ensures
        r == (date_key(a) > date_key(b)),
{
    match (a, b) {
        (Some(x), Some(y)) => x > y,
        (Some(_), None) => true,
        (None, _) => false,
    }
}

/// Inspections ordered from the most recent to the earliest.
pub open spec fn newest_first(s: Seq<Inspection>) -> bool {
    forall|i: int, j: int| 0 <= i < j < s.len() ==> date_key(#[trigger] s[i].date) >= date_key(#[trigger] s[j].date)
}

/// An inspection with `score` and `out_of` recomputed from its criteria.
pub open spec fn scored(i: Inspection) -> Inspection {
    Inspection {
        name: i.name,
        criteria: i.criteria,
        date: i.date,
        out_of: Some(total_out_of(i.criteria@) as u16),
        score: Some(total_score(i.criteria@) as u16),
    }
}

/// Inspection `i` as recorded at time `now`: a missing date becomes `now`,
/// and the score is recomputed.
pub open spec fn recorded(i: Inspection, now: i64) -> Inspection {
    scored(
        Inspection {
            name: i.name,
            criteria: i.criteria,
            date: if i.date is Some { i.date } else { Some(now) },
            out_of: i.out_of,
            score: i.score,
        },
    )
}

/// Every inspection of the list has totals that fit its fields.
pub open spec fn all_fit(s: Seq<Inspection>) -> bool {
    forall|k: int| 0 <= k < s.len() ==> (#[trigger] s[k]).fits()
}

/// Inserting an element anywhere adds it once to the multiset of a sequence.
proof fn lemma_insert_to_multiset<A>(s: Seq<A>, j: int, x: A)
    requires
        0 <= j <= s.len(),
    ensures
        s.insert(j, x).to_multiset() =~= s.to_multiset().insert(x),
{
    broadcast use vstd::seq_lib::group_to_multiset_ensures;
    let t = s.insert(j, x);
    assert(t.remove(j) =~= s);
    assert(t[j] == x);
    assert(t.contains(x));
}

/// Inserting an inspection after every one at least as recent, and before
/// every one less recent, keeps a list newest first.
proof fn lemma_insert_keeps_order(prev: Seq<Inspection>, j: int, x: Inspection)
    requires
        newest_first(prev),
        0 <= j <= prev.len(),
        forall|k: int| 0 <= k < j ==> date_key(#[trigger] prev[k].date) >= date_key(x.date),
        j < prev.len() ==> date_key(prev[j].date) < date_key(x.date),
    ensures
        newest_first(prev.insert(j, x)),
{
    let out = prev.insert(j, x);
    prev.insert_ensures(j, x);
    assert forall|k: int| j <= k < prev.len() implies date_key(#[trigger] prev[k].date) < date_key(
        x.date,
    ) by {
        if k > j {
            assert(date_key(prev[j].date) >= date_key(prev[k].date));
        }
    }
    assert forall|k: int| j < k < out.len() implies #[trigger] out[k] == prev[k - 1] by {
        assert(out[(k - 1) + 1] == prev[k - 1]);
    }
    assert forall|a: int, b: int| 0 <= a < b < out.len() implies date_key(#[trigger] out[a].date)
        >= date_key(#[trigger] out[b].date) by {
        if b < j {
            assert(out[a] == prev[a]);
            assert(out[b] == prev[b]);
        } else if a < j && b == j {
            assert(out[a] == prev[a]);
        } else if a < j {
            assert(out[a] == prev[a]);
            assert(out[b] == prev[b - 1]);
            assert(date_key(prev[a].date) >= date_key(prev[b - 1].date));
        } else if a == j {
            assert(out[b] == prev[b - 1]);
        } else {
            assert(out[a] == prev[a - 1]);
            assert(out[b] == prev[b - 1]);
            assert(date_key(prev[a - 1].date) >= date_key(prev[b - 1].date));
        }
    }
}

/// The inspections reordered from the most recent to the earliest.
fn sort_newest_first(v: Vec<Inspection>) -> (r: Vec<Inspection>)
    ensures
        newest_first(r@),
        r@.to_multiset() =~= v@.to_multiset(),
        r@.len() == v@.len(),
        all_fit(v@) ==> all_fit(r@),
{
    let ghost initial = v@;
    let mut rest = v;
    let mut out: Vec<Inspection> = Vec::new();
    proof {
        broadcast use vstd::seq_lib::group_to_multiset_ensures;
        assert(out@.to_multiset() =~= Multiset::<Inspection>::empty());
    }
    while rest.len() > 0
        invariant
            newest_first(out@),
            out@.to_multiset().add(rest@.to_multiset()) =~= initial.to_multiset(),
            all_fit(initial) ==> all_fit(out@) && all_fit(rest@),
        decreases rest@.len(),
    {
        let ghost before = rest@;
        let x = rest.pop().unwrap();
        let mut j: usize = 0;
        while j < out.len() && !date_after(x.date, out[j].date)
            invariant
                j <= out@.len(),
                forall|k: int| 0 <= k < j ==> date_key(#[trigger] out@[k].date) >= date_key(x.date),
            decreases out@.len() - j,
        {
            j = j + 1;
        }
        let ghost prev = out@;
        out.insert(j, x);
        proof {
            lemma_insert_to_multiset(prev, j as int, x);
            lemma_insert_to_multiset(rest@, rest@.len() as int, x);
            assert(rest@.insert(rest@.len() as int, x) =~= before);
            lemma_insert_keeps_order(prev, j as int, x);
            if all_fit(initial) {
                assert(x == before[before.len() - 1]);
                assert forall|k: int| 0 <= k < rest@.len() implies (#[trigger] rest@[k]).fits() by {
                    assert(rest@[k] == before[k]);
                }
                assert forall|k: int| 0 <= k < out@.len() implies (#[trigger] out@[k]).fits() by {
                    if k > j {
                        assert(out@[k] == prev[k - 1]);
                    } else if k < j {
                        assert(out@[k] == prev[k]);
                    }
                }
            }
            assert(out@.to_multiset().add(rest@.to_multiset()) =~= prev.to_multiset().add(
                before.to_multiset(),
            ));
        }
    }
    proof {
        broadcast use vstd::seq_lib::group_to_multiset_ensures;
        assert(rest@ =~= Seq::<Inspection>::empty());
        assert(rest@.to_multiset() =~= Multiset::<Inspection>::empty());
        assert(out@.to_multiset() =~= initial.to_multiset());
        assert(out@.len() == out@.to_multiset().len());
        assert(initial.len() == initial.to_multiset().len());
    }
    out
}

/// Recomputes the score of every inspection of the list, in place.
pub fn score_inspections(list: &mut Vec<Inspection>)
    requires
        all_fit(old(list)@),
    ensures
        final(list)@ == old(list)@.map_values(|i: Inspection| scored(i)),
{
    let ghost initial = old(list)@;
    let mut i: usize = 0;
    while i < list.len()
        invariant
            list@.len() == initial.len(),
            all_fit(initial),
            i <= list@.len(),
            forall|k: int| 0 <= k < i ==> list@[k] == scored(#[trigger] initial[k]),
            forall|k: int| i <= k < list@.len() ==> list@[k] == #[trigger] initial[k],
        decreases list@.len() - i,
    {
        assert(initial[i as int].fits());
        list[i].compute_score();
        i = i + 1;
    }
    proof {
        assert(list@ =~= initial.map_values(|i: Inspection| scored(i)));
    }
}

/// Whether every inspection of the list has totals that fit its fields.
fn inspections_fit(list: &Vec<Inspection>) -> (r: bool)
    ensures
        r == all_fit(list@),
{
    let mut i: usize = 0;
    while i < list.len()
        invariant
            i <= list@.len(),
            forall|k: int| 0 <= k < i ==> (#[trigger] list@[k]).fits(),
        decreases list@.len() - i,
    {
        if !list[i].score_fits() {
            return false;
        }
        i = i + 1;
    }
    true
}

/// The position of the most recent inspection: the latest date wins, and of
/// equal dates the one that comes last.
pub open spec fn latest_pos(s: Seq<Inspection>) -> int
    decreases s.len(),
{
    if s.len() <= 1 {
        0
    } else {
        let p = latest_pos(s.drop_last());
        if date_key(s.last().date) >= date_key(s[p].date) {
            s.len() - 1
        } else {
            p
        }
    }
}

/// `latest_pos` names an inspection of the list that no other is more recent than.
pub proof fn lemma_latest_pos_is_newest(s: Seq<Inspection>)
    requires
        s.len() > 0,
    ensures
        0 <= latest_pos(s) < s.len(),
        forall|k: int| 0 <= k < s.len() ==> date_key(#[trigger] s[k].date) <= date_key(s[latest_pos(s)].date),
    decreases s.len(),
{
    if s.len() > 1 {
        let d = s.drop_last();
        lemma_latest_pos_is_newest(d);
        assert forall|k: int| 0 <= k < s.len() implies date_key(#[trigger] s[k].date) <= date_key(
            s[latest_pos(s)].date,
        ) by {
            if k < s.len() - 1 {
                assert(s[k] == d[k]);
            }
        }
    }
}

/// The date of the most recent inspection of the list, if any.
pub open spec fn latest_date(s: Seq<Inspection>) -> Option<i64> {
    if s.len() == 0 {
        None
    } else {
        s[latest_pos(s)].date
    }
}

/// The score of the most recent inspection of the list, if any.
pub open spec fn latest_score(s: Seq<Inspection>) -> Option<InspectionScore> {
    if s.len() == 0 {
        None
    } else {
        Some(
            InspectionScore {
                score: total_score(s[latest_pos(s)].criteria@) as u16,
                out_of: total_out_of(s[latest_pos(s)].criteria@) as u16,
            },
        )
    }
}

/// A copy of an optional string.
pub(crate) fn copy_name(o: &Option<String>) -> (r: Option<String>)
    ensures
        r == *o,
{
    match o {
        Some(n) => Some(n.clone()),
        None => None,
    }
}

impl User {
    /// Every inspection of this user has totals that fit their fields.
    pub open spec fn fits(&self) -> bool {
        all_fit(self.inspections@)
    }

    /// Whether every inspection of this user has totals that fit their fields.
    pub fn scores_fit(&self) -> (r: bool)
        ensures
            r == self.fits(),
    {
        inspections_fit(&self.inspections)
    }

    /// The position of the most recent inspection, if there is one.
    fn latest_inspection(&self) -> (r: Option<usize>)
        ensures
            self.inspections@.len() == 0 ==> r is None,
            self.inspections@.len() > 0 ==> r is Some && r->Some_0 as int == latest_pos(self.inspections@),
            self.inspections@.len() > 0 ==> 0 <= latest_pos(self.inspections@) < self.inspections@.len(),
    {
        if self.inspections.len() == 0 {
            return None;
        }
        let ghost s = self.inspections@;
        proof {
            assert(s.take(1).drop_last().len() == 0);
        }
        let mut best: usize = 0;
        let mut i: usize = 1;
        while i < self.inspections.len()
            invariant
                1 <= i <= s.len(),
                s == self.inspections@,
                best as int == latest_pos(s.take(i as int)),
            decreases s.len() - i,
        {
            proof {
                assert(s.take(i + 1).drop_last() =~= s.take(i as int));
                lemma_latest_pos_is_newest(s.take(i as int));
                assert(s.take(i as int)[best as int] == s[best as int]);
            }
            if !date_after(self.inspections[best].date, self.inspections[i].date) {
                best = i;
            }
            i = i + 1;
        }
        proof {
            assert(s.take(i as int) =~= s);
            lemma_latest_pos_is_newest(s);
        }
        Some(best)
    }

    /// The date of the most recent inspection, if there is one.
    pub fn get_latest_inspection_date(&self) -> (r: Option<i64>)
        ensures
            r == latest_date(self.inspections@),
    {
        match self.latest_inspection() {
            Some(p) => self.inspections[p].date,
            None => None,
        }
    }

    /// The score of the most recent inspection, if there is one.
    pub fn get_latest_inspection_score(&self) -> (r: Option<InspectionScore>)
        requires
            self.fits(),
        ensures
            r == latest_score(self.inspections@),
    {
        match self.latest_inspection() {
            Some(p) => {
                assert(self.inspections@[p as int].fits());
                Some(self.inspections[p].get_score())
            },
            None => None,
        }
    }

    /// A new user with a fresh identifier, no name, no flight and no inspections.
    pub fn new() -> (r: User)
        ensures
            r.uuid@.len() == 36,
            r.username is None,
            r.inspections@.len() == 0,
            r.flight is None,
            !r.dev_user,
    {
        User {
            username: None,
            uuid: new_identifier(),
            inspections: Vec::new(),
            flight: None,
            dev_user: false,
        }
    }

    /// Records an inspection: a missing date becomes the current time, and
    /// the score is computed before it is appended.
    pub fn push_inspection(&mut self, inspec: Inspection)
        requires
            inspec.fits(),
        ensures
            exists|now: i64| final(self).inspections@ == old(self).inspections@.push(#[trigger] recorded(inspec, now)),
            final(self).uuid == old(self).uuid,
            final(self).username == old(self).username,
            final(self).flight == old(self).flight,
            final(self).dev_user == old(self).dev_user,
    {
        let now = now_timestamp();
        self.push_inspection_at(inspec, now);
    }

    /// Records an inspection taken at time `now` when it carries no date of
    /// its own; the score is computed before it is appended.
    pub fn push_inspection_at(&mut self, inspec: Inspection, now: i64)
        requires
            inspec.fits(),
        ensures
            final(self).inspections@ == old(self).inspections@.push(recorded(inspec, now)),
            final(self).uuid == old(self).uuid,
            final(self).username == old(self).username,
            final(self).flight == old(self).flight,
            final(self).dev_user == old(self).dev_user,
    {
        let mut inspect = inspec;
        if inspect.date.is_none() {
            inspect.date = Some(now);
        }
        inspect.compute_score();
        self.inspections.push(inspect);
    }

    /// Prepares a stored document for use: `None` (no document, or one that
    /// cannot be parsed) and a document whose scores do not fit their fields
    /// are not found; otherwise the inspections come back newest first with
    /// their scores recomputed.
    pub fn read_from_database(stored: Option<User>) -> (r: Result<User, RequestError>)
        ensures
            match stored {
                None => r == Err::<User, RequestError>(RequestError::NotFound),
                Some(u) => if !u.fits() {
                    r == Err::<User, RequestError>(RequestError::NotFound)
                } else {
                    &&& r is Ok
                    &&& r->Ok_0.uuid == u.uuid
                    &&& r->Ok_0.username == u.username
                    &&& r->Ok_0.flight == u.flight
                    &&& r->Ok_0.dev_user == u.dev_user
                    &&& r->Ok_0.inspections@.len() == u.inspections@.len()
                    &&& r->Ok_0.fits()
                    &&& newest_first(r->Ok_0.inspections@)
                    &&& r->Ok_0.inspections@.to_multiset() =~= u.inspections@.map_values(
                        |i: Inspection| scored(i),
                    ).to_multiset()
                },
            },
    {
        match stored {
            None => Err(RequestError::NotFound),
            Some(u) => {
                if !u.scores_fit() {
                    return Err(RequestError::NotFound);
                }
                let User { username, uuid, inspections, flight, dev_user } = u;
                let mut inspections = inspections;
                score_inspections(&mut inspections);
                proof {
                    assert forall|k: int| 0 <= k < inspections@.len() implies (#[trigger] inspections@[k]).fits() by {
                        assert(inspections@[k] == scored(u.inspections@[k]));
                        assert(u.inspections@[k].fits());
                    }
                }
                let inspections = sort_newest_first(inspections);
                Ok(User { username, uuid, inspections, flight, dev_user })
            },
        }
    }

    /// Sets the display name, which can be done once only.
    pub fn claim_username(&mut self, name: String) -> (r: Result<(), RequestError>)
        ensures
            old(self).username is None ==> r is Ok && final(self).username == Some(name),
            old(self).username is Some ==> r == Err::<(), RequestError>(RequestError::Conflict)
                && *final(self) == *old(self),
            final(self).uuid == old(self).uuid,
            final(self).inspections == old(self).inspections,
            final(self).flight == old(self).flight,
            final(self).dev_user == old(self).dev_user,
    {
        if self.username.is_some() {
            return Err(RequestError::Conflict);
        }
        self.username = Some(name);
        Ok(())
    }

    /// Places the user in a flight.
    pub fn set_flight(&mut self, flight: Flight)
        ensures
            final(self).flight == Some(flight),
            final(self).uuid == old(self).uuid,
            final(self).username == old(self).username,
            final(self).inspections == old(self).inspections,
            final(self).dev_user == old(self).dev_user,
    {
        self.flight = Some(flight);
    }
}

/// One row of the listing index: a summary of a user document.
#[derive(Clone, Debug)]
pub struct FlightIndexItem {
    pub user_uuid: String,
    pub flight: Option<Flight>,
    pub name: Option<String>,
    pub latest_inspection_date: Option<i64>,
    pub latest_inspection_score: Option<InspectionScore>,
}

/// `item` is the index row of user `u`.
pub open spec fn is_index_row(item: FlightIndexItem, u: User) -> bool {
    &&& item.user_uuid == u.uuid
    &&& item.flight == u.flight
    &&& item.name == u.username
    &&& item.latest_inspection_date == latest_date(u.inspections@)
    &&& item.latest_inspection_score == latest_score(u.inspections@)
}

/// The documents that can be indexed, in order: those present whose scores fit.
pub open spec fn readable_users(docs: Seq<Option<User>>) -> Seq<User>
    decreases docs.len(),
{
    if docs.len() == 0 {
        Seq::empty()
    } else {
        let rest = readable_users(docs.drop_last());
        match docs.last() {
            Some(u) => if u.fits() { rest.push(u) } else { rest },
            None => rest,
        }
    }
}

impl FlightIndexItem {
    /// The index row of a user.
    pub fn from(value: &User) -> (r: FlightIndexItem)
        requires
            value.fits(),
        ensures
            is_index_row(r, *value),
    {
        FlightIndexItem {
            user_uuid: value.uuid.clone(),
            flight: value.flight,
            name: copy_name(&value.username),
            latest_inspection_date: value.get_latest_inspection_date(),
            latest_inspection_score: value.get_latest_inspection_score(),
        }
    }
}

/// Rebuilds the listing index from every stored user document, in the order
/// given. `None` stands for a document that could not be read or parsed; it
/// is skipped, as is a document whose scores do not fit their fields.
pub fn index_users(docs: &Vec<Option<User>>) -> (r: Vec<FlightIndexItem>)
    ensures
        r@.len() == readable_users(docs@).len(),
        forall|k: int| 0 <= k < r@.len() ==> is_index_row(#[trigger] r@[k], readable_users(docs@)[k]),
{
    let mut out: Vec<FlightIndexItem> = Vec::new();
    let mut i: usize = 0;
    while i < docs.len()
        invariant
            i <= docs@.len(),
            out@.len() == readable_users(docs@.take(i as int)).len(),
            forall|k: int| 0 <= k < out@.len() ==> is_index_row(#[trigger] out@[k], readable_users(docs@.take(i as int))[k]),
        decreases docs@.len() - i,
    {
        proof {
            assert(docs@.take(i + 1).drop_last() =~= docs@.take(i as int));
        }
        match &docs[i] {
            Some(u) => {
                if u.scores_fit() {
                    out.push(FlightIndexItem::from(u));
                }
            },
            None => {},
        }
        i = i + 1;
    }
    proof {
        assert(docs@.take(i as int) =~= docs@);
    }
    out
}

/// Scoring is idempotent: an inspection whose score was recomputed keeps the
/// same criteria, so recomputing it again gives the same (score, out of).
pub proof fn lemma_score_idempotent(i: Inspection)
    requires
        i.fits(),
    ensures
        scored(i).fits(),
        scored(scored(i)) == scored(i),
{
}

/// A pass/fail criterion that was not marked adds nothing to the score and
/// one to the total.
pub proof fn lemma_unmarked_pass_fail(p: CriteriaPassFail)
    requires
        p.state is None,
    ensures
        criterion_score(Criteria::PassFail(p)) == 0,
        criterion_out_of(Criteria::PassFail(p)) == 1,
{
}

/// When every stored document can be read, the rebuilt index has exactly one
/// row per document, in the same order, carrying that document's identifier.
pub proof fn lemma_index_covers_every_user(docs: Seq<Option<User>>)
    requires
        forall|k: int| 0 <= k < docs.len() ==> (#[trigger] docs[k]) is Some && docs[k]->Some_0.fits(),
    ensures
        readable_users(docs).len() == docs.len(),
        forall|k: int| 0 <= k < docs.len() ==> #[trigger] readable_users(docs)[k] == docs[k]->Some_0,
    decreases docs.len(),
{
    if docs.len() > 0 {
        let d = docs.drop_last();
        assert forall|k: int| 0 <= k < d.len() implies (#[trigger] d[k]) is Some && d[k]->Some_0.fits() by {
            assert(d[k] == docs[k]);
        }
        lemma_index_covers_every_user(d);
        assert forall|k: int| 0 <= k < docs.len() implies #[trigger] readable_users(docs)[k] == docs[k]->Some_0 by {
            if k < d.len() {
                assert(d[k] == docs[k]);
            }
        }
    }
}

} // verus!
