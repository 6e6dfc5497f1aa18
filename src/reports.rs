use crate::date::{last_log_date, needs_notification, stale, CalDate, DateError};
use crate::text::{contains_text, has_substring, lemma_lex_lt_irrefl, lemma_lex_lt_trans, lex_lt, text_lt};
use vstd::prelude::*;

verus! {

/// One row of the roster. `completed` counts progress in billionths of a unit.
pub struct Person {
    pub award_unit: String,
    pub first_name: String,
    pub middle_name: String,
    pub last_name: String,
    pub award_level: String,
    pub sub_activity: String,
    pub aim: String,
    pub completed: u64,
    pub first_log_date: String,
    pub assessor_name: String,
    pub assessor_email: String,
    pub pid: u32,
    pub last_log: String,
    pub gender: String,
}

impl Person {
    /// A field-by-field copy.
    pub fn duplicate(&self) -> (r: Person)
        ensures
            r == *self,
    {
        Person {
            award_unit: self.award_unit.clone(),
            first_name: self.first_name.clone(),
            middle_name: self.middle_name.clone(),
            last_name: self.last_name.clone(),
            award_level: self.award_level.clone(),
            sub_activity: self.sub_activity.clone(),
            aim: self.aim.clone(),
            completed: self.completed,
            first_log_date: self.first_log_date.clone(),
            assessor_name: self.assessor_name.clone(),
            assessor_email: self.assessor_email.clone(),
            pid: self.pid,
            last_log: self.last_log.clone(),
            gender: self.gender.clone(),
        }
    }
}

/// The records kept by the filter: those whose first name contains `filter`.
pub open spec fn kept(records: Seq<Person>, filter: Seq<char>) -> Seq<Person> {
    records.filter(|p: Person| has_substring(p.first_name@, filter))
}

/// Keeps, in order, the records whose first name contains `filter` literally.
pub fn filter_by_first_name(records: &Vec<Person>, filter: &str) -> (r: Vec<Person>)
    ensures
        r@ == kept(records@, filter@),
{
    let mut out: Vec<Person> = Vec::new();
    let mut i: usize = 0;
    while i < records.len()
        invariant
            i <= records@.len(),
            out@ == kept(records@.take(i as int), filter@),
        decreases records@.len() - i,
    {
        proof {
            reveal(Seq::filter);
            assert(records@.take(i + 1).drop_last() =~= records@.take(i as int));
        }
        if contains_text(records[i].first_name.as_str(), filter) {
            out.push(records[i].duplicate());
        }
        i = i + 1;
    }
    assert(records@.take(i as int) =~= records@);
    out
}

/// Every record that passes the filter has a first name containing `filter`, and
/// every record whose first name contains it passes.
pub proof fn lemma_filter_exact(records: Seq<Person>, filter: Seq<char>)
    ensures
        forall|p: Person| #[trigger] kept(records, filter).contains(p) <==> (records.contains(p)
            && has_substring(p.first_name@, filter)),
{
    let pred = |q: Person| has_substring(q.first_name@, filter);
    assert forall|p: Person| #[trigger] kept(records, filter).contains(p) <==> (records.contains(p)
        && has_substring(p.first_name@, filter)) by {
        if kept(records, filter).contains(p) {
            records.lemma_filter_contains_rev(pred, p);
            let j = choose|j: int| 0 <= j < records.filter(pred).len() && records.filter(pred)[j] == p;
            records.lemma_filter_pred(pred, j);
        }
        if records.contains(p) && has_substring(p.first_name@, filter) {
            let j = choose|j: int| 0 <= j < records.len() && records[j] == p;
            records.lemma_filter_contains(pred, j);
        }
    }
}



/// A per-person total of completed work, keyed by (last name, first name).
pub struct TimeEntry {
    pub last_name: String,
    pub first_name: String,
    pub total: u128,
}

pub open spec fn person_key(p: Person) -> (Seq<char>, Seq<char>) {
    (p.last_name@, p.first_name@)
}

pub open spec fn entry_key(e: TimeEntry) -> (Seq<char>, Seq<char>) {
    (e.last_name@, e.first_name@)
}

/// The sum of `completed` over the records with the given key.
pub open spec fn key_total(recs: Seq<Person>, key: (Seq<char>, Seq<char>)) -> int
    decreases recs.len(),
{
    if recs.len() == 0 {
        0
    } else {
        key_total(recs.drop_last(), key) + if person_key(recs.last()) == key {
            recs.last().completed as int
        } else {
            0
        }
    }
}

/// The sum of `completed` over all records.
pub open spec fn completed_sum(recs: Seq<Person>) -> int
    decreases recs.len(),
{
    if recs.len() == 0 {
        0
    } else {
        completed_sum(recs.drop_last()) + recs.last().completed as int
    }
}

/// `a` comes strictly before `b` in the time report: smaller total, then last name.
pub open spec fn entry_before(a: TimeEntry, b: TimeEntry) -> bool {
    a.total < b.total || (a.total == b.total && lex_lt(a.last_name@, b.last_name@))
}

pub open spec fn entries_ordered(es: Seq<TimeEntry>) -> bool {
    forall|i: int, j: int| 0 <= i < j < es.len() ==> !entry_before(#[trigger] es[j], #[trigger] es[i])
}

/// No two entries share a key.
pub open spec fn keys_unique(es: Seq<TimeEntry>) -> bool {
    forall|i: int, j: int| 0 <= i < j < es.len() ==> entry_key(#[trigger] es[i]) != entry_key(#[trigger] es[j])
}

/// Some entry has the key.
#[verifier::opaque]
pub open spec fn listed(es: Seq<TimeEntry>, key: (Seq<char>, Seq<char>)) -> bool {
    exists|t: int| 0 <= t < es.len() && entry_key(es[t]) == key
}

/// One of the first `n` records has the key.
#[verifier::opaque]
pub open spec fn occurs(recs: Seq<Person>, n: int, key: (Seq<char>, Seq<char>)) -> bool {
    exists|k: int| 0 <= k < n && person_key(recs[k]) == key
}

/// The entries are exactly the per-key totals of `recs`, one for each key that occurs.
pub open spec fn totals_of(es: Seq<TimeEntry>, recs: Seq<Person>) -> bool {
    &&& keys_unique(es)
    &&& forall|t: int| 0 <= t < es.len() ==> occurs(recs, recs.len() as int, entry_key(#[trigger] es[t]))
    &&& forall|k: int| 0 <= k < recs.len() ==> listed(es, person_key(#[trigger] recs[k]))
    &&& forall|t: int| 0 <= t < es.len() ==> (#[trigger] es[t]).total == key_total(recs, entry_key(es[t]))
}

proof fn lemma_sum_step(recs: Seq<Person>, j: int, key: (Seq<char>, Seq<char>))
    requires
        0 <= j < recs.len(),
    ensures
        key_total(recs.take(j + 1), key) == key_total(recs.take(j), key)
            + if person_key(recs[j]) == key { recs[j].completed as int } else { 0 },
        completed_sum(recs.take(j + 1)) == completed_sum(recs.take(j)) + recs[j].completed,
{
    assert(recs.take(j + 1).drop_last() =~= recs.take(j));
}

proof fn lemma_entry_before_trans(a: TimeEntry, b: TimeEntry, c: TimeEntry)
    requires
        entry_before(a, b),
        entry_before(b, c),
    ensures
        entry_before(a, c),
{
    if a.total == b.total && b.total == c.total {
        lemma_lex_lt_trans(a.last_name@, b.last_name@, c.last_name@);
    }
}

/// Inserting `e` after every entry it does not precede, and before the first one it
/// does, keeps the entries ordered.
proof fn lemma_entry_insert_ordered(es: Seq<TimeEntry>, p: int, e: TimeEntry)
    requires
        entries_ordered(es),
        0 <= p <= es.len(),
        forall|t: int| 0 <= t < p ==> !entry_before(e, #[trigger] es[t]),
        p < es.len() ==> entry_before(e, es[p]),
    ensures
        entries_ordered(es.insert(p, e)),
{
    let ns = es.insert(p, e);
    es.insert_ensures(p, e);
    assert forall|i: int, j: int| 0 <= i < j < ns.len() implies !entry_before(#[trigger] ns[j], #[trigger] ns[i]) by {
        if i < p && j < p {
            assert(ns[i] == es[i] && ns[j] == es[j]);
        } else if i < p && j == p {
            assert(ns[i] == es[i]);
        } else if i < p {
            assert(ns[i] == es[i] && ns[j] == es[j - 1]);
        } else if i == p {
            assert(ns[j] == es[j - 1]);
            if entry_before(es[j - 1], e) {
                lemma_entry_before_trans(es[j - 1], e, es[p]);
                if j - 1 == p {
                    lemma_lex_lt_irrefl(es[p].last_name@);
                }
            }
        } else {
            assert(ns[i] == es[i - 1] && ns[j] == es[j - 1]);
        }
    }
}

proof fn lemma_insert_listed(es: Seq<TimeEntry>, p: int, e: TimeEntry, key: (Seq<char>, Seq<char>))
    requires
        0 <= p <= es.len(),
        listed(es, key) || entry_key(e) == key,
    ensures
        listed(es.insert(p, e), key),
{
    reveal(listed);
    es.insert_ensures(p, e);
    let ns = es.insert(p, e);
    if entry_key(e) == key {
        assert(ns[p] == e);
    } else {
        let t = choose|t: int| 0 <= t < es.len() && entry_key(es[t]) == key;
        if t < p {
            assert(ns[t] == es[t]);
        } else {
            assert(ns[t + 1] == es[t]);
        }
    }
}

proof fn lemma_occurs_grow(recs: Seq<Person>, i: int, key: (Seq<char>, Seq<char>))
    requires
        0 <= i < recs.len(),
        occurs(recs, i, key) || person_key(recs[i]) == key,
    ensures
        occurs(recs, i + 1, key),
{
    reveal(occurs);
}

proof fn lemma_entry_insert_totals(recs: Seq<Person>, i: int, es: Seq<TimeEntry>, p: int, e: TimeEntry)
    requires
        0 <= i < recs.len(),
        0 <= p <= es.len(),
        keys_unique(es),
        forall|t: int| 0 <= t < es.len() ==> occurs(recs, i, entry_key(#[trigger] es[t])),
        forall|k: int| 0 <= k < i ==> listed(es, person_key(#[trigger] recs[k])),
        forall|t: int| 0 <= t < es.len() ==> (#[trigger] es[t]).total == key_total(recs, entry_key(es[t])),
        !occurs(recs, i, person_key(recs[i])),
        entry_key(e) == person_key(recs[i]),
        e.total == key_total(recs, entry_key(e)),
    ensures
        keys_unique(es.insert(p, e)),
        forall|t: int| 0 <= t < es.len() + 1 ==> occurs(recs, i + 1, entry_key(#[trigger] es.insert(p, e)[t])),
        forall|k: int| 0 <= k < i + 1 ==> listed(es.insert(p, e), person_key(#[trigger] recs[k])),
        forall|t: int| 0 <= t < es.len() + 1 ==> (#[trigger] es.insert(p, e)[t]).total == key_total(
            recs,
            entry_key(es.insert(p, e)[t]),
        ),
{
    let ns = es.insert(p, e);
    es.insert_ensures(p, e);
    assert forall|t: int| 0 <= t < es.len() implies entry_key(#[trigger] es[t]) != entry_key(e) by {}
    assert forall|a: int, b: int| 0 <= a < b < ns.len() implies entry_key(#[trigger] ns[a]) != entry_key(#[trigger] ns[b]) by {
        if a < p && b < p {
            assert(ns[a] == es[a] && ns[b] == es[b]);
        } else if a < p && b == p {
            assert(ns[a] == es[a]);
        } else if a < p {
            assert(ns[a] == es[a] && ns[b] == es[b - 1]);
        } else if a == p {
            assert(ns[b] == es[b - 1]);
        } else {
            assert(ns[a] == es[a - 1] && ns[b] == es[b - 1]);
        }
    }
    assert forall|t: int| 0 <= t < es.len() + 1 implies occurs(recs, i + 1, entry_key(#[trigger] ns[t])) by {
        if t < p {
            assert(ns[t] == es[t]);
        } else if t > p {
            assert(ns[t] == es[t - 1]);
        }
        lemma_occurs_grow(recs, i, entry_key(ns[t]));
    }
    assert forall|k: int| 0 <= k < i + 1 implies listed(ns, person_key(#[trigger] recs[k])) by {
        lemma_insert_listed(es, p, e, person_key(recs[k]));
    }
    assert forall|t: int| 0 <= t < es.len() + 1 implies (#[trigger] ns[t]).total == key_total(recs, entry_key(ns[t])) by {
        if t < p {
            assert(ns[t] == es[t]);
        } else if t > p {
            assert(ns[t] == es[t - 1]);
        }
    }
}

/// The sum of `completed` over the records whose key is `(last, first)`.
fn total_for_key(records: &Vec<Person>, last: &String, first: &String) -> (r: u128)
    ensures
        r == key_total(records@, (last@, first@)),
{
    let ghost key = (last@, first@);
    let mut acc: u128 = 0;
    let mut j: usize = 0;
    while j < records.len()
        invariant
            j <= records@.len(),
            key == (last@, first@),
            acc == key_total(records@.take(j as int), key),
            acc <= completed_sum(records@.take(j as int)),
            completed_sum(records@.take(j as int)) <= j * 0xFFFF_FFFF_FFFF_FFFFint,
        decreases records@.len() - j,
    {
        proof {
            lemma_sum_step(records@, j as int, key);
            assert(j < 0xFFFF_FFFF_FFFF_FFFFint);
        }
        let same = records[j].last_name == *last && records[j].first_name == *first;
        if same {
            acc = acc + records[j].completed as u128;
        }
        j = j + 1;
    }
    assert(records@.take(j as int) =~= records@);
    acc
}

/// Whether `a` comes strictly before `b` in the time report.
fn entry_precedes(a: &TimeEntry, b: &TimeEntry) -> (r: bool)
    ensures
        r == entry_before(*a, *b),
{
    a.total < b.total || (a.total == b.total && text_lt(a.last_name.as_str(), b.last_name.as_str()))
}

/// One entry per (last name, first name) holding the sum of `completed` over the
/// records with that key, ordered by total, then by last name.
pub fn time_totals(records: &Vec<Person>) -> (r: Vec<TimeEntry>)
    ensures
        totals_of(r@, records@),
        entries_ordered(r@),
{
    let mut out: Vec<TimeEntry> = Vec::new();
    let mut i: usize = 0;
    while i < records.len()
        invariant
            i <= records@.len(),
            keys_unique(out@),
            entries_ordered(out@),
            forall|t: int| 0 <= t < out@.len() ==> occurs(records@, i as int, entry_key(#[trigger] out@[t])),
            forall|k: int| 0 <= k < i ==> listed(out@, person_key(#[trigger] records@[k])),
            forall|t: int| 0 <= t < out@.len() ==> (#[trigger] out@[t]).total == key_total(
                records@,
                entry_key(out@[t]),
            ),
        decreases records@.len() - i,
    {
        let rec = &records[i];
        let mut k: usize = 0;
        let mut seen = false;
        while k < i && !seen
            invariant
                k <= i < records@.len(),
                rec == records@[i as int],
                forall|q: int| 0 <= q < k ==> person_key(#[trigger] records@[q]) != person_key(*rec),
                seen ==> k < i && person_key(records@[k as int]) == person_key(*rec),
            decreases i - k + if seen { 0int } else { 1int },
        {
            if records[k].last_name == rec.last_name && records[k].first_name == rec.first_name {
                seen = true;
            } else {
                k = k + 1;
            }
        }
        if seen {
            proof {
                assert(listed(out@, person_key(records@[k as int])));
                assert forall|t: int| 0 <= t < out@.len() implies occurs(records@, i + 1, entry_key(#[trigger] out@[t])) by {
                    lemma_occurs_grow(records@, i as int, entry_key(out@[t]));
                }
            }
        } else {
            proof {
                reveal(occurs);
            }
            let total = total_for_key(records, &rec.last_name, &rec.first_name);
            let e = TimeEntry { last_name: rec.last_name.clone(), first_name: rec.first_name.clone(), total };
            let mut p: usize = 0;
            while p < out.len() && !entry_precedes(&e, &out[p])
                invariant
                    p <= out@.len(),
                    forall|t: int| 0 <= t < p ==> !entry_before(e, #[trigger] out@[t]),
                decreases out@.len() - p,
            {
                p = p + 1;
            }
            proof {
                lemma_entry_insert_ordered(out@, p as int, e);
                lemma_entry_insert_totals(records@, i as int, out@, p as int, e);
            }
            out.insert(p, e);
        }
        i = i + 1;
    }
    out
}


/// Someone to notify, identified by first, middle and last name.
pub struct Recipient {
    pub first_name: String,
    pub middle_name: String,
    pub last_name: String,
}

pub open spec fn person_triple(p: Person) -> (Seq<char>, Seq<char>, Seq<char>) {
    (p.first_name@, p.middle_name@, p.last_name@)
}

pub open spec fn recipient_triple(r: Recipient) -> (Seq<char>, Seq<char>, Seq<char>) {
    (r.first_name@, r.middle_name@, r.last_name@)
}

/// The record's last log is readable and stale against `today`.
pub open spec fn notified(p: Person, today: CalDate) -> bool {
    match last_log_date(p.last_log@) {
        Ok(last) => stale(last, today),
        Err(_) => false,
    }
}

/// Some recipient has the names.
#[verifier::opaque]
pub open spec fn named(v: Seq<Recipient>, names: (Seq<char>, Seq<char>, Seq<char>)) -> bool {
    exists|t: int| 0 <= t < v.len() && recipient_triple(v[t]) == names
}

/// One of the first `n` records has the names and is notified.
#[verifier::opaque]
pub open spec fn notified_among(
    recs: Seq<Person>,
    n: int,
    today: CalDate,
    names: (Seq<char>, Seq<char>, Seq<char>),
) -> bool {
    exists|k: int| 0 <= k < n && notified(recs[k], today) && person_triple(recs[k]) == names
}

/// `a` comes strictly before `b`: by first name, then last name, then middle name.
pub open spec fn recipient_before(a: Recipient, b: Recipient) -> bool {
    lex_lt(a.first_name@, b.first_name@) || (a.first_name@ == b.first_name@ && (lex_lt(
        a.last_name@,
        b.last_name@,
    ) || (a.last_name@ == b.last_name@ && lex_lt(a.middle_name@, b.middle_name@))))
}

pub open spec fn recipients_ordered(v: Seq<Recipient>) -> bool {
    forall|i: int, j: int| 0 <= i < j < v.len() ==> !recipient_before(#[trigger] v[j], #[trigger] v[i])
}

pub open spec fn triples_unique(v: Seq<Recipient>) -> bool {
    forall|i: int, j: int| 0 <= i < j < v.len() ==> recipient_triple(#[trigger] v[i]) != recipient_triple(#[trigger] v[j])
}

/// The list of people to notify, taken from `recs` against `today`.
pub open spec fn recipients_of(v: Seq<Recipient>, recs: Seq<Person>, today: CalDate) -> bool {
    &&& triples_unique(v)
    &&& recipients_ordered(v)
    &&& forall|t: int| 0 <= t < v.len() ==> notified_among(recs, recs.len() as int, today, recipient_triple(#[trigger] v[t]))
    &&& forall|k: int| 0 <= k < recs.len() && notified(#[trigger] recs[k], today) ==> named(v, person_triple(recs[k]))
}

proof fn lemma_recipient_before_trans(a: Recipient, b: Recipient, c: Recipient)
    requires
        recipient_before(a, b),
        recipient_before(b, c),
    ensures
        recipient_before(a, c),
{
    if lex_lt(a.first_name@, b.first_name@) && lex_lt(b.first_name@, c.first_name@) {
        lemma_lex_lt_trans(a.first_name@, b.first_name@, c.first_name@);
    }
    if lex_lt(a.last_name@, b.last_name@) && lex_lt(b.last_name@, c.last_name@) {
        lemma_lex_lt_trans(a.last_name@, b.last_name@, c.last_name@);
    }
    if lex_lt(a.middle_name@, b.middle_name@) && lex_lt(b.middle_name@, c.middle_name@) {
        lemma_lex_lt_trans(a.middle_name@, b.middle_name@, c.middle_name@);
    }
}

proof fn lemma_recipient_before_irrefl(a: Recipient)
    ensures
        !recipient_before(a, a),
{
    lemma_lex_lt_irrefl(a.first_name@);
    lemma_lex_lt_irrefl(a.last_name@);
    lemma_lex_lt_irrefl(a.middle_name@);
}

proof fn lemma_recipient_insert(v: Seq<Recipient>, p: int, x: Recipient)
    requires
        recipients_ordered(v),
        triples_unique(v),
        0 <= p <= v.len(),
        forall|t: int| 0 <= t < p ==> !recipient_before(x, #[trigger] v[t]),
        p < v.len() ==> recipient_before(x, v[p]),
        forall|t: int| 0 <= t < v.len() ==> recipient_triple(#[trigger] v[t]) != recipient_triple(x),
    ensures
        recipients_ordered(v.insert(p, x)),
        triples_unique(v.insert(p, x)),
        forall|names: (Seq<char>, Seq<char>, Seq<char>)| named(v, names) ==> #[trigger] named(v.insert(p, x), names),
        named(v.insert(p, x), recipient_triple(x)),
        forall|t: int| 0 <= t < v.len() + 1 ==> (#[trigger] v.insert(p, x)[t] == x || exists|q: int| 0 <= q < v.len() && v.insert(p, x)[t] == v[q]),
{
    let ns = v.insert(p, x);
    v.insert_ensures(p, x);
    assert forall|i: int, j: int| 0 <= i < j < ns.len() implies !recipient_before(#[trigger] ns[j], #[trigger] ns[i])
        && recipient_triple(ns[i]) != recipient_triple(ns[j]) by {
        if i < p && j < p {
            assert(ns[i] == v[i] && ns[j] == v[j]);
        } else if i < p && j == p {
            assert(ns[i] == v[i]);
        } else if i < p {
            assert(ns[i] == v[i] && ns[j] == v[j - 1]);
        } else if i == p {
            assert(ns[j] == v[j - 1]);
            if recipient_before(v[j - 1], x) {
                lemma_recipient_before_trans(v[j - 1], x, v[p]);
                if j - 1 == p {
                    lemma_recipient_before_irrefl(v[p]);
                }
            }
        } else {
            assert(ns[i] == v[i - 1] && ns[j] == v[j - 1]);
        }
    }
    reveal(named);
    assert(ns[p] == x);
    assert forall|names: (Seq<char>, Seq<char>, Seq<char>)| named(v, names) implies #[trigger] named(ns, names) by {
        let t = choose|t: int| 0 <= t < v.len() && recipient_triple(v[t]) == names;
        if t < p {
            assert(ns[t] == v[t]);
        } else {
            assert(ns[t + 1] == v[t]);
        }
    }
    assert forall|t: int| 0 <= t < v.len() + 1 implies (#[trigger] ns[t] == x || exists|q: int| 0 <= q < v.len() && ns[t] == v[q]) by {
        if t < p {
            assert(ns[t] == v[t]);
        } else if t > p {
            assert(ns[t] == v[t - 1]);
        }
    }
}

impl Recipient {
    /// The names of a record.
    pub fn of(p: &Person) -> (r: Recipient)
        ensures
            recipient_triple(r) == person_triple(*p),
    {
        Recipient {
            first_name: p.first_name.clone(),
            middle_name: p.middle_name.clone(),
            last_name: p.last_name.clone(),
        }
    }

    /// The report line: first, middle and last name separated by single spaces.
    pub fn line(&self) -> (r: String)
        ensures
            r@ == self.first_name@ + seq![' '] + self.middle_name@ + seq![' '] + self.last_name@,
    {
        proof {
            reveal_strlit(" ");
        }
        let mut s = self.first_name.clone();
        s.append(" ");
        s.append(self.middle_name.as_str());
        s.append(" ");
        s.append(self.last_name.as_str());
        s
    }
}

fn recipient_precedes(a: &Recipient, b: &Recipient) -> (r: bool)
    ensures
        r == recipient_before(*a, *b),
{
    text_lt(a.first_name.as_str(), b.first_name.as_str()) || (a.first_name == b.first_name && (text_lt(
        a.last_name.as_str(),
        b.last_name.as_str(),
    ) || (a.last_name == b.last_name && text_lt(a.middle_name.as_str(), b.middle_name.as_str()))))
}

fn same_names(a: &Recipient, b: &Recipient) -> (r: bool)
    ensures
        r == (recipient_triple(*a) == recipient_triple(*b)),
{
    let f = a.first_name == b.first_name;
    let m = a.middle_name == b.middle_name;
    let l = a.last_name == b.last_name;
    f && m && l
}

/// The people to notify, each name triple once, ordered by first name, then last
/// name, then middle name; or the error of the first record whose last log cannot be
/// read.
pub fn notification_list(records: &Vec<Person>, today: CalDate) -> (r: Result<Vec<Recipient>, DateError>)
    requires
        today.wf(),
    ensures
        match r {
            Ok(v) => (forall|k: int| 0 <= k < records@.len() ==> (#[trigger] last_log_date(records@[k].last_log@)) is Ok)
                && recipients_of(v@, records@, today),
            Err(e) => exists|k: int| 0 <= k < records@.len() && last_log_date(records@[k].last_log@) == Err::<Option<CalDate>, DateError>(e)
                && forall|q: int| 0 <= q < k ==> (#[trigger] last_log_date(records@[q].last_log@)) is Ok,
        },
{
    let mut out: Vec<Recipient> = Vec::new();
    let mut i: usize = 0;
    while i < records.len()
        invariant
            i <= records@.len(),
            today.wf(),
            forall|q: int| 0 <= q < i ==> (#[trigger] last_log_date(records@[q].last_log@)) is Ok,
            triples_unique(out@),
            recipients_ordered(out@),
            forall|t: int| 0 <= t < out@.len() ==> notified_among(records@, i as int, today, recipient_triple(#[trigger] out@[t])),
            forall|k: int| 0 <= k < i && notified(#[trigger] records@[k], today) ==> named(out@, person_triple(records@[k])),
        decreases records@.len() - i,
    {
        let rec = &records[i];
        let b = match needs_notification(rec.last_log.as_str(), today) {
            Ok(b) => b,
            Err(e) => {
                return Err(e);
            },
        };
        assert(b == notified(records@[i as int], today));
        if b {
            let x = Recipient::of(rec);
            let mut t: usize = 0;
            let mut found = false;
            while t < out.len() && !found
                invariant
                    t <= out@.len(),
                    forall|q: int| 0 <= q < t ==> recipient_triple(#[trigger] out@[q]) != recipient_triple(x),
                    found ==> t < out@.len() && recipient_triple(out@[t as int]) == recipient_triple(x),
                decreases out@.len() - t + if found { 0int } else { 1int },
            {
                if same_names(&out[t], &x) {
                    found = true;
                } else {
                    t = t + 1;
                }
            }
            if found {
                proof {
                    reveal(named);
                    assert(named(out@, person_triple(records@[i as int])));
                }
            } else {
                let mut p: usize = 0;
                while p < out.len() && !recipient_precedes(&x, &out[p])
                    invariant
                        p <= out@.len(),
                        forall|q: int| 0 <= q < p ==> !recipient_before(x, #[trigger] out@[q]),
                    decreases out@.len() - p,
                {
                    p = p + 1;
                }
                let ghost old_out = out@;
                proof {
                    lemma_recipient_insert(out@, p as int, x);
                }
                out.insert(p, x);
                proof {
                    assert forall|t: int| 0 <= t < out@.len() implies notified_among(records@, i as int, today, recipient_triple(#[trigger] out@[t]))
                        || recipient_triple(out@[t]) == recipient_triple(x) by {
                        if out@[t] != x {
                            let q = choose|q: int| 0 <= q < old_out.len() && out@[t] == old_out[q];
                            assert(notified_among(records@, i as int, today, recipient_triple(old_out[q])));
                        }
                    }
                }
            }
        }
        proof {
            reveal(notified_among);
            assert forall|t: int| 0 <= t < out@.len() implies notified_among(records@, i + 1, today, recipient_triple(#[trigger] out@[t])) by {
                if !notified_among(records@, i as int, today, recipient_triple(out@[t])) {
                    assert(notified(records@[i as int], today) && person_triple(records@[i as int]) == recipient_triple(out@[t]));
                }
            }
        }
        i = i + 1;
    }
    Ok(out)
}


/// The time report has one entry for each distinct (last name, first name) pair among
/// the records.
pub proof fn lemma_totals_count(records: Seq<Person>, es: Seq<TimeEntry>)
    requires
        totals_of(es, records),
    ensures
        es.len() == records.map_values(|p: Person| person_key(p)).to_set().len(),
{
    reveal(listed);
    reveal(occurs);
    let ks = es.map_values(|e: TimeEntry| entry_key(e));
    let rs = records.map_values(|p: Person| person_key(p));
    assert(ks.no_duplicates()) by {
        assert forall|i: int, j: int| 0 <= i < ks.len() && 0 <= j < ks.len() && i != j implies ks[i] != ks[j] by {
            if i < j {
                assert(entry_key(es[i]) != entry_key(es[j]));
            } else {
                assert(entry_key(es[j]) != entry_key(es[i]));
            }
        }
    }
    assert(ks.to_set() =~= rs.to_set()) by {
        assert forall|key| ks.to_set().contains(key) implies rs.to_set().contains(key) by {
            let t = choose|t: int| 0 <= t < ks.len() && ks[t] == key;
            assert(occurs(records, records.len() as int, entry_key(es[t])));
            let k = choose|k: int| 0 <= k < records.len() && person_key(records[k]) == entry_key(es[t]);
            assert(rs[k] == key);
        }
        assert forall|key| rs.to_set().contains(key) implies ks.to_set().contains(key) by {
            let k = choose|k: int| 0 <= k < rs.len() && rs[k] == key;
            assert(listed(es, person_key(records[k])));
            let t = choose|t: int| 0 <= t < es.len() && entry_key(es[t]) == person_key(records[k]);
            assert(ks[t] == key);
        }
    }
    ks.unique_seq_to_set();
}


/// The sum of the totals of a list of entries.
pub open spec fn totals_sum(es: Seq<TimeEntry>) -> int
    decreases es.len(),
{
    if es.len() == 0 {
        0
    } else {
        totals_sum(es.drop_last()) + es.last().total as int
    }
}

spec fn keyed_sum(es: Seq<TimeEntry>, recs: Seq<Person>) -> int
    decreases es.len(),
{
    if es.len() == 0 {
        0
    } else {
        keyed_sum(es.drop_last(), recs) + key_total(recs, entry_key(es.last()))
    }
}

spec fn hit_sum(es: Seq<TimeEntry>, key: (Seq<char>, Seq<char>), c: int) -> int
    decreases es.len(),
{
    if es.len() == 0 {
        0
    } else {
        hit_sum(es.drop_last(), key, c) + if entry_key(es.last()) == key { c } else { 0 }
    }
}

proof fn lemma_totals_are_keyed(es: Seq<TimeEntry>, recs: Seq<Person>)
    requires
        forall|t: int| 0 <= t < es.len() ==> (#[trigger] es[t]).total == key_total(recs, entry_key(es[t])),
    ensures
        totals_sum(es) == keyed_sum(es, recs),
    decreases es.len(),
{
    if es.len() > 0 {
        let d = es.drop_last();
        assert forall|t: int| 0 <= t < d.len() implies (#[trigger] d[t]).total == key_total(recs, entry_key(d[t])) by {
            assert(d[t] == es[t]);
        }
        lemma_totals_are_keyed(d, recs);
    }
}

proof fn lemma_keyed_sum_step(es: Seq<TimeEntry>, recs: Seq<Person>)
    requires
        recs.len() > 0,
    ensures
        keyed_sum(es, recs) == keyed_sum(es, recs.drop_last()) + hit_sum(
            es,
            person_key(recs.last()),
            recs.last().completed as int,
        ),
    decreases es.len(),
{
    if es.len() > 0 {
        lemma_keyed_sum_step(es.drop_last(), recs);
    }
}

proof fn lemma_hit_sum_absent(es: Seq<TimeEntry>, key: (Seq<char>, Seq<char>), c: int)
    requires
        forall|t: int| 0 <= t < es.len() ==> entry_key(#[trigger] es[t]) != key,
    ensures
        hit_sum(es, key, c) == 0,
    decreases es.len(),
{
    if es.len() > 0 {
        let d = es.drop_last();
        assert forall|t: int| 0 <= t < d.len() implies entry_key(#[trigger] d[t]) != key by {
            assert(d[t] == es[t]);
        }
        lemma_hit_sum_absent(d, key, c);
    }
}

proof fn lemma_hit_sum_once(es: Seq<TimeEntry>, key: (Seq<char>, Seq<char>), c: int)
    requires
        keys_unique(es),
        listed(es, key),
    ensures
        hit_sum(es, key, c) == c,
    decreases es.len(),
{
    reveal(listed);
    let d = es.drop_last();
    assert forall|a: int, b: int| 0 <= a < b < d.len() implies entry_key(#[trigger] d[a]) != entry_key(#[trigger] d[b]) by {
        assert(d[a] == es[a] && d[b] == es[b]);
    }
    if entry_key(es.last()) == key {
        assert forall|t: int| 0 <= t < d.len() implies entry_key(#[trigger] d[t]) != key by {
            assert(d[t] == es[t]);
            assert(entry_key(es[t]) != entry_key(es[es.len() - 1]));
        }
        lemma_hit_sum_absent(d, key, c);
    } else {
        let t = choose|t: int| 0 <= t < es.len() && entry_key(es[t]) == key;
        assert(d[t] == es[t]);
        assert(listed(d, key));
        lemma_hit_sum_once(d, key, c);
    }
}

proof fn lemma_keyed_sum_total(es: Seq<TimeEntry>, recs: Seq<Person>)
    requires
        keys_unique(es),
        forall|k: int| 0 <= k < recs.len() ==> listed(es, person_key(#[trigger] recs[k])),
    ensures
        keyed_sum(es, recs) == completed_sum(recs),
    decreases recs.len(),
{
    if recs.len() == 0 {
        lemma_keyed_zero(es, recs);
    } else {
        let d = recs.drop_last();
        assert forall|k: int| 0 <= k < d.len() implies listed(es, person_key(#[trigger] d[k])) by {
            assert(d[k] == recs[k]);
        }
        lemma_keyed_sum_total(es, d);
        lemma_keyed_sum_step(es, recs);
        assert(listed(es, person_key(recs[recs.len() - 1])));
        lemma_hit_sum_once(es, person_key(recs.last()), recs.last().completed as int);
    }
}

proof fn lemma_keyed_zero(es: Seq<TimeEntry>, recs: Seq<Person>)
    requires
        recs.len() == 0,
    ensures
        keyed_sum(es, recs) == 0,
    decreases es.len(),
{
    if es.len() > 0 {
        lemma_keyed_zero(es.drop_last(), recs);
    }
}

/// The totals of the time report add up to the sum of `completed` over all records.
pub proof fn lemma_totals_sum(records: Seq<Person>, es: Seq<TimeEntry>)
    requires
        totals_of(es, records),
    ensures
        totals_sum(es) == completed_sum(records),
{
    lemma_totals_are_keyed(es, records);
    lemma_keyed_sum_total(es, records);
}

} // verus!
