//! The collection of job-application records and its mutation operations.
//!
//! A record holds a company, a position, a status (all free text) and a list
//! of interview dates that is kept strictly ascending — sorted, with no
//! duplicates. The collection is an ordered sequence of records; mutations
//! are: append a record, overwrite a record's status, and insert a parsed
//! interview date into a record's date list.

use vstd::prelude::*;
use crate::date::{Date, date_lt, spec_parse_date, parse_date};

verus! {

/// One job-application record.
#[derive(Clone, PartialEq, Debug)]
pub struct JobApplication {
    pub company: String,
    pub position: String,
    pub status: String,
    pub interview_dates: Vec<Date>,
}

/// The mathematical content of a record: its texts as character sequences
/// and its dates as a sequence.
pub struct JobView {
    pub company: Seq<char>,
    pub position: Seq<char>,
    pub status: Seq<char>,
    pub dates: Seq<Date>,
}

impl View for JobApplication {
    type V = JobView;

    open spec fn view(&self) -> JobView {
        JobView {
            company: self.company@,
            position: self.position@,
            status: self.status@,
            dates: self.interview_dates@,
        }
    }
}

/// The collection of records, in insertion order.
#[derive(Clone, PartialEq, Debug)]
pub struct ApplicationStore {
    pub jobs: Vec<JobApplication>,
}

impl View for ApplicationStore {
    type V = Seq<JobView>;

    open spec fn view(&self) -> Seq<JobView> {
        self.jobs@.map_values(|j: JobApplication| j@)
    }
}

/// Strictly ascending: sorted, and in particular free of duplicates.
pub open spec fn sorted_dates(s: Seq<Date>) -> bool {
    forall|i: int, j: int| #![trigger s[i], s[j]] 0 <= i < j < s.len() ==> date_lt(s[i], s[j])
}

/// A record is well formed when its date list is strictly ascending and
/// holds only valid calendar dates.
pub open spec fn job_wf(j: JobView) -> bool {
    &&& sorted_dates(j.dates)
    &&& forall|i: int| 0 <= i < j.dates.len() ==> (#[trigger] j.dates[i]).valid()
}

/// The collection is well formed when every record is.
pub open spec fn store_wf(v: Seq<JobView>) -> bool {
    forall|i: int| 0 <= i < v.len() ==> job_wf(#[trigger] v[i])
}

/// A strictly ascending list has no duplicate dates.
pub proof fn lemma_sorted_no_duplicates(s: Seq<Date>)
    requires
        sorted_dates(s),
    ensures
        forall|i: int, j: int| #![trigger s[i], s[j]] 0 <= i < j < s.len() ==> s[i] != s[j],
{
}

/// Insertion into a date list: a duplicate of a leading element leaves the
/// list unchanged; otherwise the new date goes in front of the first later
/// element. On a strictly ascending list this is exactly sorted insertion
/// with duplicate suppression.
pub open spec fn insert_date(s: Seq<Date>, d: Date) -> Seq<Date>
    decreases s.len(),
{
    if s.len() == 0 {
        seq![d]
    } else if s[0] == d {
        s
    } else if date_lt(d, s[0]) {
        seq![d] + s
    } else {
        seq![s[0]] + insert_date(s.drop_first(), d)
    }
}

/// The inserted date is always present afterwards, whatever the list.
pub proof fn lemma_insert_date_contains_self(s: Seq<Date>, d: Date)
    ensures
        insert_date(s, d).contains(d),
    decreases s.len(),
{
    if s.len() == 0 {
        assert(insert_date(s, d)[0] == d);
    } else if s[0] == d {
        assert(s[0] == d);
        assert(s.contains(d));
    } else if date_lt(d, s[0]) {
        assert((seq![d] + s)[0] == d);
    } else {
        lemma_insert_date_contains_self(s.drop_first(), d);
        let t = insert_date(s.drop_first(), d);
        let i = choose|i: int| 0 <= i < t.len() && t[i] == d;
        assert(insert_date(s, d)[i + 1] == d);
    }
}

/// On a strictly ascending list, insertion keeps the list strictly
/// ascending; it is the identity exactly when the date was already present,
/// and otherwise adds exactly that one date.
pub proof fn lemma_insert_date_sorted(s: Seq<Date>, d: Date)
    requires
        sorted_dates(s),
    ensures
        sorted_dates(insert_date(s, d)),
        forall|x: Date| insert_date(s, d).contains(x) <==> (s.contains(x) || x == d),
        s.contains(d) ==> insert_date(s, d) == s,
        !s.contains(d) ==> insert_date(s, d).len() == s.len() + 1,
    decreases s.len(),
{
    let r = insert_date(s, d);
    if s.len() == 0 {
        assert forall|x: Date| r.contains(x) implies (s.contains(x) || x == d) by {
            let i = choose|i: int| 0 <= i < r.len() && r[i] == x;
        }
        assert(r.contains(d)) by { assert(r[0] == d); }
    } else if s[0] == d {
        assert(s.contains(d)) by { assert(s[0] == d); }
    } else if date_lt(d, s[0]) {
        assert(r == seq![d] + s);
        assert forall|i: int, j: int| #![trigger r[i], r[j]] 0 <= i < j < r.len() implies date_lt(
            r[i],
            r[j],
        ) by {
            if i == 0 {
                assert(r[0] == d);
                if j == 1 {
                    assert(r[j] == s[0]);
                } else {
                    assert(r[j] == s[j - 1]);
                    assert(date_lt(s[0], s[j - 1]));
                }
            } else {
                assert(r[i] == s[i - 1] && r[j] == s[j - 1]);
                assert(date_lt(s[i - 1], s[j - 1]));
            }
        }
        assert forall|x: Date| r.contains(x) implies (s.contains(x) || x == d) by {
            let i = choose|i: int| 0 <= i < r.len() && r[i] == x;
            if i > 0 {
                assert(s[i - 1] == x);
                assert(s.contains(x));
            }
        }
        assert forall|x: Date| s.contains(x) || x == d implies r.contains(x) by {
            if s.contains(x) {
                let i = choose|i: int| 0 <= i < s.len() && s[i] == x;
                assert(r[i + 1] == x);
            } else {
                assert(r[0] == d);
            }
        }
        assert(!s.contains(d)) by {
            if s.contains(d) {
                let i = choose|i: int| 0 <= i < s.len() && s[i] == d;
                if i > 0 {
                    assert(date_lt(s[0], s[i]));
                }
            }
        }
    } else {
        // here date_lt(s[0], d): totality of the order on distinct dates
        assert(date_lt(s[0], d));
        let tail = s.drop_first();
        assert(sorted_dates(tail)) by {
            assert forall|i: int, j: int| #![trigger tail[i], tail[j]] 0 <= i < j < tail.len()
                implies date_lt(tail[i], tail[j]) by {
                assert(tail[i] == s[i + 1] && tail[j] == s[j + 1]);
                assert(date_lt(s[i + 1], s[j + 1]));
            }
        }
        lemma_insert_date_sorted(tail, d);
        let t = insert_date(tail, d);
        assert(r == seq![s[0]] + t);
        assert forall|i: int, j: int| #![trigger r[i], r[j]] 0 <= i < j < r.len() implies date_lt(
            r[i],
            r[j],
        ) by {
            if i == 0 {
                assert(r[j] == t[j - 1]);
                assert(t.contains(t[j - 1]));
                let x = t[j - 1];
                if x == d {
                    assert(date_lt(s[0], d));
                } else {
                    assert(tail.contains(x));
                    let k = choose|k: int| 0 <= k < tail.len() && tail[k] == x;
                    assert(tail[k] == s[k + 1]);
                    assert(date_lt(s[0], s[k + 1]));
                }
            } else {
                assert(r[i] == t[i - 1] && r[j] == t[j - 1]);
                assert(date_lt(t[i - 1], t[j - 1]));
            }
        }
        assert forall|x: Date| r.contains(x) implies (s.contains(x) || x == d) by {
            let i = choose|i: int| 0 <= i < r.len() && r[i] == x;
            if i == 0 {
                assert(s[0] == x);
                assert(s.contains(x));
            } else {
                assert(t[i - 1] == x);
                assert(t.contains(x));
                if tail.contains(x) {
                    let k = choose|k: int| 0 <= k < tail.len() && tail[k] == x;
                    assert(s[k + 1] == x);
                    assert(s.contains(x));
                }
            }
        }
        assert forall|x: Date| s.contains(x) || x == d implies r.contains(x) by {
            if s.contains(x) {
                let i = choose|i: int| 0 <= i < s.len() && s[i] == x;
                if i == 0 {
                    assert(r[0] == x);
                } else {
                    assert(tail[i - 1] == x);
                    assert(tail.contains(x));
                    assert(t.contains(x));
                    let k = choose|k: int| 0 <= k < t.len() && t[k] == x;
                    assert(r[k + 1] == x);
                }
            } else {
                assert(t.contains(d));
                let k = choose|k: int| 0 <= k < t.len() && t[k] == d;
                assert(r[k + 1] == d);
            }
        }
        assert(s.contains(d) <==> tail.contains(d)) by {
            if s.contains(d) {
                let i = choose|i: int| 0 <= i < s.len() && s[i] == d;
                assert(i != 0);
                assert(tail[i - 1] == d);
            }
            if tail.contains(d) {
                let i = choose|i: int| 0 <= i < tail.len() && tail[i] == d;
                assert(s[i + 1] == d);
            }
        }
        if s.contains(d) {
            assert(insert_date(tail, d) == tail);
            assert(r =~= s);
        }
    }
}

/// Inserting at the position that separates the earlier dates from the
/// later ones is what `insert_date` does on a strictly ascending list.
pub proof fn lemma_insert_date_at(s: Seq<Date>, d: Date, k: int)
    requires
        sorted_dates(s),
        0 <= k <= s.len(),
        forall|i: int| 0 <= i < k ==> date_lt(#[trigger] s[i], d),
        k < s.len() ==> date_lt(d, s[k]),
    ensures
        insert_date(s, d) == s.insert(k, d),
    decreases s.len(),
{
    if k == 0 {
        if s.len() == 0 {
            assert(insert_date(s, d) =~= s.insert(0, d));
        } else {
            assert(date_lt(d, s[0]));
            assert(insert_date(s, d) =~= s.insert(0, d));
        }
    } else {
        assert(date_lt(s[0], d));
        let tail = s.drop_first();
        assert(sorted_dates(tail)) by {
            assert forall|i: int, j: int| #![trigger tail[i], tail[j]] 0 <= i < j < tail.len()
                implies date_lt(tail[i], tail[j]) by {
                assert(tail[i] == s[i + 1] && tail[j] == s[j + 1]);
                assert(date_lt(s[i + 1], s[j + 1]));
            }
        }
        assert forall|i: int| 0 <= i < k - 1 implies date_lt(#[trigger] tail[i], d) by {
            assert(tail[i] == s[i + 1]);
            assert(date_lt(s[i + 1], d));
        }
        assert(k - 1 < tail.len() ==> date_lt(d, tail[k - 1])) by {
            if k - 1 < tail.len() {
                assert(tail[k - 1] == s[k]);
            }
        }
        lemma_insert_date_at(tail, d, k - 1);
        assert(insert_date(s, d) =~= s.insert(k, d));
    }
}

/// A new record: the given texts and an empty date list.
pub open spec fn new_job(company: Seq<char>, position: Seq<char>, status: Seq<char>) -> JobView {
    JobView { company, position, status, dates: Seq::empty() }
}

/// What adding an application means: the new record is appended.
pub open spec fn spec_add_application(
    v: Seq<JobView>,
    company: Seq<char>,
    position: Seq<char>,
    status: Seq<char>,
) -> Seq<JobView> {
    v.push(new_job(company, position, status))
}

/// What overwriting a status means: only that record's status changes.
pub open spec fn spec_set_status(v: Seq<JobView>, i: int, status: Seq<char>) -> Seq<JobView> {
    v.update(
        i,
        JobView { company: v[i].company, position: v[i].position, status, dates: v[i].dates },
    )
}

/// What adding an interview date means: if the text parses as a valid date
/// that the record does not yet hold, the date is inserted in order;
/// otherwise — malformed text or a duplicate — nothing changes.
pub open spec fn spec_add_interview_date(v: Seq<JobView>, i: int, text: Seq<char>) -> Seq<JobView> {
    match spec_parse_date(text) {
        None => v,
        Some(d) => if v[i].dates.contains(d) {
            v
        } else {
            v.update(
                i,
                JobView {
                    company: v[i].company,
                    position: v[i].position,
                    status: v[i].status,
                    dates: insert_date(v[i].dates, d),
                },
            )
        },
    }
}

impl ApplicationStore {
    /// The empty collection.
    pub fn new() -> (r: ApplicationStore)
        ensures
            r@ == Seq::<JobView>::empty(),
            store_wf(r@),
    {
        let r = ApplicationStore { jobs: Vec::new() };
        proof {
            assert(r@ =~= Seq::<JobView>::empty());
        }
        r
    }

    pub fn job_count(&self) -> (n: usize)
        ensures
            n == self@.len(),
    {
        self.jobs.len()
    }

    pub fn job(&self, index: usize) -> (r: &JobApplication)
        requires
            index < self@.len(),
        ensures
            r@ == self@[index as int],
    {
        &self.jobs[index]
    }

    /// Appends a record with the given texts and no interview dates.
    pub fn add_application(&mut self, company: String, position: String, status: String)
        requires
            company@.len() > 0,
            position@.len() > 0,
            status@.len() > 0,
            store_wf(old(self)@),
        ensures
            final(self)@ == spec_add_application(old(self)@, company@, position@, status@),
            final(self)@.len() == old(self)@.len() + 1,
            store_wf(final(self)@),
    {
        let ghost c = company@;
        let ghost p = position@;
        let ghost st = status@;
        let job = JobApplication { company, position, status, interview_dates: Vec::new() };
        proof {
            assert(job@ == new_job(c, p, st));
        }
        self.jobs.push(job);
        proof {
            assert(self@ =~= spec_add_application(old(self)@, c, p, st));
        }
    }

    /// Overwrites the status of the record at `index`, unconditionally.
    pub fn set_status(&mut self, index: usize, new_status: String)
        requires
            index < old(self)@.len(),
            store_wf(old(self)@),
        ensures
            final(self)@ == spec_set_status(old(self)@, index as int, new_status@),
            store_wf(final(self)@),
    {
        let ghost st = new_status@;
        let job = &mut self.jobs[index];
        job.status = new_status;
        proof {
            assert(self@ =~= spec_set_status(old(self)@, index as int, st));
            assert forall|i: int| 0 <= i < self@.len() implies job_wf(#[trigger] self@[i]) by {
                assert(job_wf(old(self)@[i]));
            }
        }
    }

    /// Attempts to add an interview date, given as `YYYY-MM-DD` text, to the
    /// record at `index`. Returns whether the record changed: malformed text
    /// and already-present dates are silent no-ops.
    pub fn add_interview_date(&mut self, index: usize, date_text: &str) -> (changed: bool)
        requires
            index < old(self)@.len(),
            store_wf(old(self)@),
        ensures
            final(self)@ == spec_add_interview_date(old(self)@, index as int, date_text@),
            store_wf(final(self)@),
            changed == match spec_parse_date(date_text@) {
                Some(d) => !old(self)@[index as int].dates.contains(d),
                None => false,
            },
    {
        let parsed = parse_date(date_text);
        let d = match parsed {
            None => {
                return false;
            },
            Some(d) => d,
        };
        let ghost s0 = self.jobs@[index as int].interview_dates@;
        proof {
            assert(self@[index as int] == self.jobs@[index as int]@);
            assert(sorted_dates(s0));
        }
        // find the first position whose date is not earlier than d
        let n = self.jobs[index].interview_dates.len();
        let mut k: usize = 0;
        while k < n && self.jobs[index].interview_dates[k].before(&d)
            invariant
                k <= n,
                index < self.jobs@.len(),
                n == s0.len(),
                self.jobs@[index as int].interview_dates@ == s0,
                forall|i: int| 0 <= i < k ==> date_lt(#[trigger] s0[i], d),
            decreases n - k,
    {
            k += 1;
        }
        let duplicate = k < n && self.jobs[index].interview_dates[k] == d;
        proof {
            if duplicate {
                assert(s0[k as int] == d);
                assert(s0.contains(d));
            } else {
                assert(!s0.contains(d)) by {
                    if s0.contains(d) {
                        let i = choose|i: int| 0 <= i < s0.len() && s0[i] == d;
                        if i < k {
                            assert(date_lt(s0[i], d));
                        } else if k < n {
                            assert(!date_lt(s0[k as int], d));
                            if i > k {
                                assert(date_lt(s0[k as int], s0[i]));
                            }
                        }
                    }
                }
                if k < n {
                    assert(!date_lt(s0[k as int], d) && s0[k as int] != d);
                    assert(date_lt(d, s0[k as int]));
                }
            }
        }
        if duplicate {
            proof {
                assert(self@ =~= spec_add_interview_date(old(self)@, index as int, date_text@));
            }
            return false;
        }
        let job = &mut self.jobs[index];
        job.interview_dates.insert(k, d);
        proof {
            lemma_insert_date_at(s0, d, k as int);
            lemma_insert_date_sorted(s0, d);
            assert(self@ =~= spec_add_interview_date(old(self)@, index as int, date_text@));
            assert forall|i: int| 0 <= i < self@.len() implies job_wf(#[trigger] self@[i]) by {
                assert(job_wf(old(self)@[i]));
                if i == index as int {
                    assert(self@[i].dates == insert_date(s0, d));
                    assert forall|q: int| 0 <= q < self@[i].dates.len() implies (
                    #[trigger] self@[i].dates[q]).valid() by {
                        assert(insert_date(s0, d).contains(insert_date(s0, d)[q]));
                        let x = insert_date(s0, d)[q];
                        if s0.contains(x) {
                            let w = choose|w: int| 0 <= w < s0.len() && s0[w] == x;
                            assert(s0[w].valid());
                        }
                    }
                }
            }
        }
        true
    }
}

impl Default for ApplicationStore {
    /// The store starts empty.
    fn default() -> (r: ApplicationStore)
        ensures
            r@ == Seq::<JobView>::empty(),
            store_wf(r@),
    {
        ApplicationStore::new()
    }
}

/// Adding an application appends exactly one record — the given one, with an
/// empty date list — and leaves every earlier record unchanged. Over any
/// sequence of such calls the collection therefore grows by one per call, in
/// call order.
pub proof fn lemma_add_application_appends(
    v: Seq<JobView>,
    company: Seq<char>,
    position: Seq<char>,
    status: Seq<char>,
)
    ensures
        spec_add_application(v, company, position, status).len() == v.len() + 1,
        forall|i: int| 0 <= i < v.len() ==> spec_add_application(v, company, position, status)[i]
            == v[i],
        spec_add_application(v, company, position, status)[v.len() as int] == new_job(
            company,
            position,
            status,
        ),
        new_job(company, position, status).dates.len() == 0,
{
}

/// Adding an interview date to a well-formed collection keeps it well
/// formed: the touched record's date list stays strictly ascending — sorted,
/// with no duplicates — and made of valid dates; no other record changes.
pub proof fn lemma_add_interview_date_preserves_wf(v: Seq<JobView>, i: int, text: Seq<char>)
    requires
        store_wf(v),
        0 <= i < v.len(),
    ensures
        store_wf(spec_add_interview_date(v, i, text)),
        spec_add_interview_date(v, i, text).len() == v.len(),
        forall|j: int| 0 <= j < v.len() && j != i ==> spec_add_interview_date(v, i, text)[j]
            == v[j],
{
    let r = spec_add_interview_date(v, i, text);
    match spec_parse_date(text) {
        None => {},
        Some(d) => {
            if !v[i].dates.contains(d) {
                assert(spec_parse_date(text) == Some(d));
                assert(d.valid());
                lemma_insert_date_sorted(v[i].dates, d);
                assert forall|j: int| 0 <= j < r.len() implies job_wf(#[trigger] r[j]) by {
                    assert(job_wf(v[j]));
                    if j == i {
                        assert(sorted_dates(r[j].dates));
                        assert forall|q: int| 0 <= q < r[j].dates.len() implies (
                        #[trigger] r[j].dates[q]).valid() by {
                            assert(r[j].dates.contains(r[j].dates[q]));
                            let x = r[j].dates[q];
                            if v[i].dates.contains(x) {
                                let w = choose|w: int| 0 <= w < v[i].dates.len() && v[i].dates[w]
                                    == x;
                                assert(v[i].dates[w].valid());
                            }
                        }
                    }
                }
            }
        },
    }
}

/// Adding the same date text twice is idempotent: the second call is a
/// no-op, so the record's date list changes at most once.
pub proof fn lemma_add_interview_date_idempotent(v: Seq<JobView>, i: int, text: Seq<char>)
    requires
        0 <= i < v.len(),
    ensures
        spec_add_interview_date(spec_add_interview_date(v, i, text), i, text)
            == spec_add_interview_date(v, i, text),
{
    match spec_parse_date(text) {
        None => {},
        Some(d) => {
            if !v[i].dates.contains(d) {
                let r = spec_add_interview_date(v, i, text);
                lemma_insert_date_contains_self(v[i].dates, d);
                assert(r[i].dates.contains(d));
            }
        },
    }
}

/// Date text that does not parse as a valid calendar date leaves the
/// collection — in particular the record's interview-date list — unchanged.
pub proof fn lemma_malformed_date_is_no_op(v: Seq<JobView>, i: int, text: Seq<char>)
    requires
        spec_parse_date(text) is None,
    ensures
        spec_add_interview_date(v, i, text) == v,
{
}

} // verus!
