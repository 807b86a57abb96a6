use crate::block::clone_string;
use vstd::prelude::*;

verus! {

/// Mathematical model of one reservation ticket.
pub struct TicketV {
    pub ticket_id: int,
    pub size: int,
    pub created_at: int,
    pub app_id: Seq<char>,
}

/// A reservation of bytes against the memory budget, with a TTL.
pub struct Ticket {
    pub ticket_id: u64,
    pub size: i64,
    pub created_at: u64,
    pub app_id: String,
}

impl View for Ticket {
    type V = TicketV;

    open spec fn view(&self) -> TicketV {
        TicketV {
            ticket_id: self.ticket_id as int,
            size: self.size as int,
            created_at: self.created_at as int,
            app_id: self.app_id@,
        }
    }
}

pub open spec fn ticket_views(s: Seq<Ticket>) -> Seq<TicketV> {
    Seq::new(s.len(), |i: int| s[i]@)
}

/// The first ticket with the given id, if any.
pub open spec fn find_ticket(s: Seq<TicketV>, id: int) -> Option<TicketV>
    decreases s.len(),
{
    if s.len() == 0 {
        None
    } else if s[0].ticket_id == id {
        Some(s[0])
    } else {
        find_ticket(s.drop_first(), id)
    }
}

/// All tickets except those with the given id, in order.
pub open spec fn remove_ticket_id(s: Seq<TicketV>, id: int) -> Seq<TicketV>
    decreases s.len(),
{
    if s.len() == 0 {
        s
    } else if s.last().ticket_id == id {
        remove_ticket_id(s.drop_last(), id)
    } else {
        remove_ticket_id(s.drop_last(), id).push(s.last())
    }
}

/// Whether a ticket belongs to the given application.
pub open spec fn ticket_of_app(t: TicketV, app_id: Seq<char>) -> bool {
    t.app_id == app_id
}

/// Whether a ticket has expired by `now` under the given TTL.
pub open spec fn ticket_expired(t: TicketV, now: int, ttl: int) -> bool {
    t.created_at + ttl <= now
}

/// The tickets satisfying `pred`, in order (`pred` selects by app or expiry).
pub open spec fn tickets_where(s: Seq<TicketV>, pred: spec_fn(TicketV) -> bool) -> Seq<TicketV>
    decreases s.len(),
{
    if s.len() == 0 {
        s
    } else if pred(s.last()) {
        tickets_where(s.drop_last(), pred).push(s.last())
    } else {
        tickets_where(s.drop_last(), pred)
    }
}

/// Keeps the live tickets.  Expiry is driven by the caller, who passes the
/// clock into `reap_expired` and returns the reclaimed bytes to the budget.
pub struct TicketManager {
    tickets: Vec<Ticket>,
    ttl_sec: u64,
}

impl View for TicketManager {
    type V = Seq<TicketV>;

    closed spec fn view(&self) -> Seq<TicketV> {
        ticket_views(self.tickets@)
    }
}

impl TicketManager {
    /// All ids are distinct and all sizes are nonnegative.
    pub open spec fn wf(&self) -> bool {
        &&& forall|i: int, j: int|
            0 <= i < j < self@.len() ==> (#[trigger] self@[i]).ticket_id != (
            #[trigger] self@[j]).ticket_id
        &&& forall|i: int| 0 <= i < self@.len() ==> 0 <= (#[trigger] self@[i]).size <= i64::MAX
    }

    pub closed spec fn ttl_spec(&self) -> int {
        self.ttl_sec as int
    }

    pub fn new(ttl_sec: u64) -> (r: TicketManager)
        ensures
            r.wf(),
            r@ == Seq::<TicketV>::empty(),
            r.ttl_spec() == ttl_sec,
    {
        let r = TicketManager { tickets: Vec::new(), ttl_sec };
        proof {
            assert(r@ =~= Seq::<TicketV>::empty());
        }
        r
    }

    pub fn ttl_sec(&self) -> (r: u64)
        ensures
            r == self.ttl_spec(),
    {
        self.ttl_sec
    }

    /// Records a ticket.  Re-inserting an id that is already live changes
    /// nothing.
    pub fn insert(&mut self, ticket_id: u64, size: i64, created_at: u64, app_id: &String)
        requires
            old(self).wf(),
            0 <= size,
        ensures
            final(self).wf(),
            final(self).ttl_spec() == old(self).ttl_spec(),
            find_ticket(old(self)@, ticket_id as int) is Some ==> final(self)@ == old(self)@,
            find_ticket(old(self)@, ticket_id as int) is None ==> final(self)@ == old(self)@.push(
                TicketV {
                    ticket_id: ticket_id as int,
                    size: size as int,
                    created_at: created_at as int,
                    app_id: app_id@,
                },
            ),
    {
        if self.contains_id(ticket_id) {
            return ;
        }
        let t = Ticket { ticket_id, size, created_at, app_id: clone_string(app_id) };
        let ghost prev = self.tickets@;
        proof {
            lemma_find_none_absent(self@, ticket_id as int);
        }
        self.tickets.push(t);
        proof {
            assert(self@ =~= ticket_views(prev).push(t@));
        }
    }

    fn contains_id(&self, ticket_id: u64) -> (r: bool)
        ensures
            r == (find_ticket(self@, ticket_id as int) is Some),
    {
        let mut i: usize = 0;
        proof {
            assert(self@.skip(0) =~= self@);
        }
        while i < self.tickets.len()
            invariant
                i <= self.tickets.len(),
                find_ticket(self@, ticket_id as int) == find_ticket(
                    self@.skip(i as int),
                    ticket_id as int,
                ),
            decreases self.tickets.len() - i,
        {
            proof {
                assert(self@.skip(i as int).len() == self@.len() - i);
                assert(self@.skip(i as int)[0] == self@[i as int]);
            }
            if self.tickets[i].ticket_id == ticket_id {
                return true;
            }
            proof {
                assert(self@.skip(i as int).drop_first() =~= self@.skip(i as int + 1));
            }
            i = i + 1;
        }
        proof {
            assert(self@.skip(self.tickets@.len() as int) =~= Seq::<TicketV>::empty());
        }
        false
    }

    /// Deletes the ticket with the given id, returning its size, or
    /// `TICKET_ID_NOT_EXIST` (leaving the state unchanged) when no such
    /// ticket is live.
    pub fn delete(&mut self, ticket_id: u64) -> (r: Result<i64, crate::error::WorkerError>)
        requires
            old(self).wf(),
        ensures
            final(self).wf(),
            final(self).ttl_spec() == old(self).ttl_spec(),
            r is Ok <==> find_ticket(old(self)@, ticket_id as int) is Some,
            r is Ok ==> r == Ok::<i64, crate::error::WorkerError>(
                (find_ticket(old(self)@, ticket_id as int)->0.size) as i64,
            ) && final(self)@ == remove_ticket_id(old(self)@, ticket_id as int),
            r is Err ==> final(self)@ == old(self)@ && r == Err::<i64, crate::error::WorkerError>(
                crate::error::WorkerError::TICKET_ID_NOT_EXIST,
            ),
    {
        let mut i: usize = 0;
        proof {
            assert(self@.skip(0) =~= self@);
        }
        while i < self.tickets.len()
            invariant
                i <= self.tickets.len(),
                self.wf(),
                self@ == old(self)@,
                self.ttl_spec() == old(self).ttl_spec(),
                find_ticket(self@, ticket_id as int) == find_ticket(
                    self@.skip(i as int),
                    ticket_id as int,
                ),
                forall|j: int| 0 <= j < i ==> (#[trigger] self@[j]).ticket_id != ticket_id as int,
            decreases self.tickets.len() - i,
        {
            proof {
                assert(self@.skip(i as int).len() == self@.len() - i);
                assert(self@.skip(i as int)[0] == self@[i as int]);
            }
            if self.tickets[i].ticket_id == ticket_id {
                let ghost prev = self@;
                proof {
                    assert(find_ticket(prev.skip(i as int), ticket_id as int) == Some(
                        prev[i as int],
                    ));
                }
                let t = self.tickets.remove(i);
                proof {
                    assert(t@ == prev[i as int]);
                    assert forall|j: int| 0 <= j < self.tickets@.len() implies ticket_views(
                        self.tickets@,
                    )[j] == prev.remove(i as int)[j] by {
                        if j < i as int {
                            assert(self.tickets@[j]@ == prev[j]);
                        } else {
                            assert(self.tickets@[j]@ == prev[j + 1]);
                        }
                    }
                    assert(self@ =~= prev.remove(i as int));
                    lemma_remove_unique_id(prev, ticket_id as int, i as int);
                }
                return Ok(t.size);
            }
            proof {
                assert(self@.skip(i as int).drop_first() =~= self@.skip(i as int + 1));
            }
            i = i + 1;
        }
        proof {
            assert(self@.skip(self.tickets@.len() as int) =~= Seq::<TicketV>::empty());
        }
        Err(crate::error::WorkerError::TICKET_ID_NOT_EXIST)
    }

    /// Removes and returns every ticket of the given application, in order.
    pub fn purge_app(&mut self, app_id: &String) -> (r: Vec<Ticket>)
        requires
            old(self).wf(),
        ensures
            final(self).wf(),
            final(self).ttl_spec() == old(self).ttl_spec(),
            ticket_views(r@) == tickets_where(old(self)@, |t: TicketV| ticket_of_app(t, app_id@)),
            forall|i: int| 0 <= i < ticket_views(r@).len() ==> 0 <= (#[trigger] ticket_views(r@)[i]).size,
            final(self)@ == tickets_where(old(self)@, |t: TicketV| !ticket_of_app(t, app_id@)),
    {
        let r = self.split_where_app_or_expiry(true, app_id, 0, 0);
        proof {
            let p = split_pred(true, app_id@, 0, 0);
            assert(p =~= |t: TicketV| ticket_of_app(t, app_id@));
            assert((|t: TicketV| !(p(t))) =~= |t: TicketV| !ticket_of_app(t, app_id@));
        }
        r
    }

    /// Removes and returns every ticket whose TTL has elapsed by `now`, in
    /// order.  The caller returns their bytes to the budget.
    pub fn reap_expired(&mut self, now: u64) -> (r: Vec<Ticket>)
        requires
            old(self).wf(),
        ensures
            final(self).wf(),
            final(self).ttl_spec() == old(self).ttl_spec(),
            ticket_views(r@) == tickets_where(
                old(self)@,
                |t: TicketV| ticket_expired(t, now as int, old(self).ttl_spec()),
            ),
            forall|i: int| 0 <= i < ticket_views(r@).len() ==> 0 <= (#[trigger] ticket_views(r@)[i]).size,
            final(self)@ == tickets_where(
                old(self)@,
                |t: TicketV| !ticket_expired(t, now as int, old(self).ttl_spec()),
            ),
    {
        let ttl = self.ttl_sec;
        let empty = String::new();
        let ghost t0 = self.ttl_spec();
        let r = self.split_where_app_or_expiry(false, &empty, now, ttl);
        proof {
            let p = split_pred(false, empty@, now as int, t0);
            assert(p =~= |t: TicketV| ticket_expired(t, now as int, t0));
            assert((|t: TicketV| !(p(t))) =~= |t: TicketV| !ticket_expired(t, now as int, t0));
        }
        r
    }

    /// Splits the live tickets on one predicate: by app when `by_app`, else
    /// by expiry at `now` under `ttl`.  Returns the matching tickets and
    /// keeps the rest.
    fn split_where_app_or_expiry(&mut self, by_app: bool, app_id: &String, now: u64, ttl: u64) -> (r:
        Vec<Ticket>)
        requires
            old(self).wf(),
            !by_app ==> ttl == old(self).ttl_spec(),
        ensures
            final(self).wf(),
            final(self).ttl_spec() == old(self).ttl_spec(),
            ticket_views(r@) == tickets_where(old(self)@, split_pred(by_app, app_id@, now as int, ttl as int)),
            forall|i: int| 0 <= i < ticket_views(r@).len() ==> 0 <= (#[trigger] ticket_views(r@)[i]).size,
            final(self)@ == tickets_where(
                old(self)@,
                |t: TicketV| !(split_pred(by_app, app_id@, now as int, ttl as int)(t)),
            ),
    {
        let ghost pred = split_pred(by_app, app_id@, now as int, ttl as int);
        let mut kept: Vec<Ticket> = Vec::new();
        let mut taken: Vec<Ticket> = Vec::new();
        let ghost orig = self@;
        let ghost ttl0 = old(self).ttl_spec();
        proof {
            assert(orig.take(0) =~= Seq::<TicketV>::empty());
            assert(ticket_views(kept@) =~= Seq::<TicketV>::empty());
            assert(ticket_views(taken@) =~= Seq::<TicketV>::empty());
            assert(orig.skip(0) =~= orig);
        }
        while self.tickets.len() > 0
            invariant
                self.ttl_spec() == ttl0,
                pred == split_pred(by_app, app_id@, now as int, ttl as int),
                ticket_views(taken@) == tickets_where(orig.take(orig.len() - self@.len()), pred),
                ticket_views(kept@) == tickets_where(
                    orig.take(orig.len() - self@.len()),
                    |t: TicketV| !(pred(t)),
                ),
                self@ == orig.skip(orig.len() - self@.len()),
                self@.len() <= orig.len(),
            decreases self.tickets.len(),
        {
            let ghost done = orig.len() - self@.len();
            let ghost before = self.tickets@;
            let t = self.tickets.remove(0);
            let ghost tv = t@;
            proof {
                assert(ticket_views(before) == orig.skip(done));
                assert(ticket_views(before).len() == before.len());
                assert(tv == ticket_views(before)[0]);
                assert(self.tickets@ == before.remove(0));
                assert forall|j: int| 0 <= j < self.tickets@.len() implies ticket_views(
                    self.tickets@,
                )[j] == orig.skip(done + 1)[j] by {
                    assert(before.remove(0)[j] == before[j + 1]);
                    assert(ticket_views(before)[j + 1] == before[j + 1]@);
                    assert(orig.skip(done)[j + 1] == orig[done + 1 + j]);
                    assert(orig.skip(done + 1)[j] == orig[done + 1 + j]);
                }
                assert(ticket_views(self.tickets@) =~= orig.skip(done + 1));
                assert(orig.take(done + 1) =~= orig.take(done).push(tv));
                lemma_tickets_where_push(orig.take(done), tv, pred);
                lemma_tickets_where_push(orig.take(done), tv, |x: TicketV| !(pred(x)));
            }
            let selected = if by_app {
                t.app_id == *app_id
            } else {
                now >= ttl && t.created_at <= now - ttl
            };
            proof {
                if by_app {
                    assert(pred =~= (|x: TicketV| ticket_of_app(x, app_id@)));
                    assert(pred(tv) == ticket_of_app(tv, app_id@));
                    assert(selected == pred(tv));
                } else {
                    assert(pred =~= (|x: TicketV| ticket_expired(x, now as int, ttl as int)));
                    assert(pred(tv) == ticket_expired(tv, now as int, ttl as int));
                    assert(selected == pred(tv));
                }
            }
            if selected {
                let ghost ptaken = taken@;
                taken.push(t);
                proof {
                    assert(ticket_views(taken@) =~= ticket_views(ptaken).push(tv));
                }
            } else {
                let ghost pkept = kept@;
                kept.push(t);
                proof {
                    assert(ticket_views(kept@) =~= ticket_views(pkept).push(tv));
                }
            }
        }
        proof {
            assert(orig.take(orig.len() - self@.len()) =~= orig);
        }
        self.tickets = kept;
        proof {
            lemma_tickets_where_wf(orig, pred);
            lemma_tickets_where_wf(orig, |t: TicketV| !(pred(t)));
            let fin = tickets_where(orig, |t: TicketV| !(pred(t)));
            assert forall|i: int| 0 <= i < fin.len() implies 0 <= (#[trigger] fin[i]).size
                <= i64::MAX by {
                let k = choose|k: int| 0 <= k < orig.len() && #[trigger] orig[k] == fin[i];
            }
            let tk = tickets_where(orig, pred);
            assert forall|i: int| 0 <= i < ticket_views(taken@).len() implies 0 <= (
            #[trigger] ticket_views(taken@)[i]).size by {
                let k = choose|k: int| 0 <= k < orig.len() && #[trigger] orig[k] == tk[i];
            }
        }
        taken
    }
}

/// The predicate `split_where_app_or_expiry` selects on.
pub open spec fn split_pred(by_app: bool, app_id: Seq<char>, now: int, ttl: int) -> spec_fn(
    TicketV,
) -> bool {
    if by_app {
        |t: TicketV| ticket_of_app(t, app_id)
    } else {
        |t: TicketV| ticket_expired(t, now, ttl)
    }
}

proof fn lemma_tickets_where_push(s: Seq<TicketV>, t: TicketV, pred: spec_fn(TicketV) -> bool)
    ensures
        tickets_where(s.push(t), pred) == if pred(t) {
            tickets_where(s, pred).push(t)
        } else {
            tickets_where(s, pred)
        },
{
    assert(s.push(t).drop_last() =~= s);
}

/// Selection keeps distinctness of ids and nonnegative sizes.
pub proof fn lemma_tickets_where_wf(s: Seq<TicketV>, pred: spec_fn(TicketV) -> bool)
    requires
        forall|i: int, j: int|
            0 <= i < j < s.len() ==> (#[trigger] s[i]).ticket_id != (#[trigger] s[j]).ticket_id,
    ensures
        forall|i: int, j: int|
            0 <= i < j < tickets_where(s, pred).len() ==> (#[trigger] tickets_where(s, pred)[i]).ticket_id != (
            #[trigger] tickets_where(s, pred)[j]).ticket_id,
        forall|i: int| #![trigger tickets_where(s, pred)[i]]
            0 <= i < tickets_where(s, pred).len() ==> exists|k: int|
                0 <= k < s.len() && #[trigger] s[k] == tickets_where(s, pred)[i],
    decreases s.len(),
{
    if s.len() > 0 {
        let d = s.drop_last();
        assert(forall|i: int, j: int|
            0 <= i < j < d.len() ==> (#[trigger] d[i]).ticket_id != (#[trigger] d[j]).ticket_id);
        lemma_tickets_where_wf(d, pred);
        let w = tickets_where(s, pred);
        let wd = tickets_where(d, pred);
        if pred(s.last()) {
            assert(w == wd.push(s.last()));
            assert forall|i: int, j: int|
                0 <= i < j < w.len() implies (#[trigger] w[i]).ticket_id != (
            #[trigger] w[j]).ticket_id by {
                if j < w.len() - 1 {
                } else {
                    let k = choose|k: int| 0 <= k < d.len() && d[k] == wd[i];
                    assert(s[k] == w[i]);
                    assert(s.last() == s[s.len() - 1]);
                }
            }
        }
    }
}

/// Removing the unique position holding `id` is the same as filtering `id`
/// out, when ids are distinct.
proof fn lemma_remove_unique_id(s: Seq<TicketV>, id: int, at: int)
    requires
        0 <= at < s.len(),
        s[at].ticket_id == id,
        forall|j: int| 0 <= j < at ==> (#[trigger] s[j]).ticket_id != id,
        forall|i: int, j: int|
            0 <= i < j < s.len() ==> (#[trigger] s[i]).ticket_id != (#[trigger] s[j]).ticket_id,
    ensures
        s.remove(at) == remove_ticket_id(s, id),
    decreases s.len(),
{
    if s.len() > 0 {
        let d = s.drop_last();
        if at == s.len() - 1 {
            assert(s.last().ticket_id == id);
            assert(s.remove(at) =~= d);
            assert(remove_ticket_id(s, id) == remove_ticket_id(d, id));
            lemma_remove_absent_id(d, id);
        } else {
            assert(s.last().ticket_id != id);
            assert(remove_ticket_id(s, id) == remove_ticket_id(d, id).push(s.last()));
            assert(forall|j: int| 0 <= j < at ==> (#[trigger] d[j]).ticket_id != id);
            assert(forall|i: int, j: int|
                0 <= i < j < d.len() ==> (#[trigger] d[i]).ticket_id != (
                #[trigger] d[j]).ticket_id);
            assert(d[at].ticket_id == id);
            lemma_remove_unique_id(d, id, at);
            assert(s.remove(at) =~= d.remove(at).push(s.last()));
        }
    }
}

/// An id held by no live ticket is not found.
pub proof fn lemma_find_ticket_absent(s: Seq<TicketV>, id: int)
    requires
        forall|j: int| 0 <= j < s.len() ==> (#[trigger] s[j]).ticket_id != id,
    ensures
        find_ticket(s, id) is None,
    decreases s.len(),
{
    if s.len() > 0 {
        let d = s.drop_first();
        assert(forall|j: int| 0 <= j < d.len() ==> (#[trigger] d[j]).ticket_id != id);
        lemma_find_ticket_absent(d, id);
    }
}

/// Every ticket left after filtering an id out was live before.
pub proof fn lemma_remove_ticket_id_subset(s: Seq<TicketV>, id: int)
    ensures
        forall|i: int| #![trigger remove_ticket_id(s, id)[i]]
            0 <= i < remove_ticket_id(s, id).len() ==> exists|k: int|
                0 <= k < s.len() && #[trigger] s[k] == remove_ticket_id(s, id)[i],
    decreases s.len(),
{
    if s.len() > 0 {
        let d = s.drop_last();
        lemma_remove_ticket_id_subset(d, id);
        let w = remove_ticket_id(s, id);
        let wd = remove_ticket_id(d, id);
        assert forall|i: int| #![trigger w[i]] 0 <= i < w.len() implies exists|k: int|
            0 <= k < s.len() && #[trigger] s[k] == w[i] by {
            if s.last().ticket_id == id {
                let k = choose|k: int| 0 <= k < d.len() && #[trigger] d[k] == wd[i];
                assert(s[k] == w[i]);
            } else {
                if i < w.len() - 1 {
                    let k = choose|k: int| 0 <= k < d.len() && #[trigger] d[k] == wd[i];
                    assert(s[k] == w[i]);
                } else {
                    assert(s[s.len() - 1] == w[i]);
                }
            }
        }
    }
}

/// A found ticket is one of the live tickets.
pub proof fn lemma_find_ticket_member(s: Seq<TicketV>, id: int)
    ensures
        find_ticket(s, id) matches Some(t) ==> exists|k: int|
            0 <= k < s.len() && #[trigger] s[k] == t,
    decreases s.len(),
{
    if s.len() > 0 {
        if s[0].ticket_id == id {
            assert(s[0] == find_ticket(s, id)->0);
        } else {
            lemma_find_ticket_member(s.drop_first(), id);
            if find_ticket(s, id) is Some {
                let t = find_ticket(s, id)->0;
                let k = choose|k: int| 0 <= k < s.drop_first().len() && #[trigger] s.drop_first()[k] == t;
                assert(s[k + 1] == t);
            }
        }
    }
}

/// A missing id means no position holds it.
proof fn lemma_find_none_absent(s: Seq<TicketV>, id: int)
    requires
        find_ticket(s, id) is None,
    ensures
        forall|j: int| 0 <= j < s.len() ==> (#[trigger] s[j]).ticket_id != id,
    decreases s.len(),
{
    if s.len() > 0 {
        lemma_find_none_absent(s.drop_first(), id);
        assert forall|j: int| 0 <= j < s.len() implies (#[trigger] s[j]).ticket_id != id by {
            if j > 0 {
                assert(s.drop_first()[j - 1] == s[j]);
            }
        }
    }
}

/// Filtering an id that does not occur changes nothing.
proof fn lemma_remove_absent_id(s: Seq<TicketV>, id: int)
    requires
        forall|j: int| 0 <= j < s.len() ==> (#[trigger] s[j]).ticket_id != id,
    ensures
        remove_ticket_id(s, id) == s,
    decreases s.len(),
{
    if s.len() > 0 {
        let d = s.drop_last();
        assert(forall|j: int| 0 <= j < d.len() ==> (#[trigger] d[j]).ticket_id != id);
        lemma_remove_absent_id(d, id);
        assert(remove_ticket_id(s, id) =~= s);
    }
}

/// Reserve-then-release accounting: a fresh ticket pushed by a
/// reservation is found by its id with its exact size, and releasing it
/// restores the live tickets; with the budget's transitions this returns
/// exactly the reserved bytes to `allocated`.
pub proof fn lemma_ticket_roundtrip(tickets: Seq<TicketV>, t: TicketV)
    requires
        forall|j: int| 0 <= j < tickets.len() ==> (#[trigger] tickets[j]).ticket_id != t.ticket_id,
    ensures
        find_ticket(tickets.push(t), t.ticket_id) == Some(t),
        remove_ticket_id(tickets.push(t), t.ticket_id) == tickets,
    decreases tickets.len(),
{
    lemma_find_push_fresh(tickets, t);
    assert(tickets.push(t).drop_last() =~= tickets);
    lemma_remove_absent_id(tickets, t.ticket_id);
}

proof fn lemma_find_push_fresh(tickets: Seq<TicketV>, t: TicketV)
    requires
        forall|j: int| 0 <= j < tickets.len() ==> (#[trigger] tickets[j]).ticket_id != t.ticket_id,
    ensures
        find_ticket(tickets.push(t), t.ticket_id) == Some(t),
    decreases tickets.len(),
{
    let w = tickets.push(t);
    if tickets.len() == 0 {
        assert(w[0] == t);
    } else {
        assert(w[0] == tickets[0]);
        assert(w[0].ticket_id != t.ticket_id);
        assert(w.drop_first() =~= tickets.drop_first().push(t));
        assert(forall|j: int|
            0 <= j < tickets.drop_first().len() ==> (
            #[trigger] tickets.drop_first()[j]).ticket_id != t.ticket_id);
        lemma_find_push_fresh(tickets.drop_first(), t);
    }
}

/// Reserve-then-expire accounting: when every earlier ticket is still
/// live at `now` and the fresh ticket's TTL has elapsed, the reaper takes
/// exactly that ticket (returning its exact size to the budget) and keeps
/// the rest.
pub proof fn lemma_ticket_expiry_roundtrip(tickets: Seq<TicketV>, t: TicketV, now: int, ttl: int)
    requires
        forall|j: int| 0 <= j < tickets.len() ==> !ticket_expired(#[trigger] tickets[j], now, ttl),
        ticket_expired(t, now, ttl),
    ensures
        tickets_where(tickets.push(t), |x: TicketV| ticket_expired(x, now, ttl)) == seq![t],
        tickets_where(tickets.push(t), |x: TicketV| !ticket_expired(x, now, ttl)) == tickets,
    decreases tickets.len(),
{
    let p = |x: TicketV| ticket_expired(x, now, ttl);
    let np = |x: TicketV| !ticket_expired(x, now, ttl);
    lemma_tickets_where_push(tickets, t, p);
    lemma_tickets_where_push(tickets, t, np);
    lemma_tickets_where_none(tickets, p);
    lemma_tickets_where_all(tickets, np);
    assert(Seq::<TicketV>::empty().push(t) =~= seq![t]);
}

proof fn lemma_tickets_where_none(s: Seq<TicketV>, pred: spec_fn(TicketV) -> bool)
    requires
        forall|j: int| 0 <= j < s.len() ==> !pred(#[trigger] s[j]),
    ensures
        tickets_where(s, pred) == Seq::<TicketV>::empty(),
    decreases s.len(),
{
    if s.len() > 0 {
        let d = s.drop_last();
        assert(forall|j: int| 0 <= j < d.len() ==> !pred(#[trigger] d[j]));
        lemma_tickets_where_none(d, pred);
        assert(!pred(s.last()));
    }
}

proof fn lemma_tickets_where_all(s: Seq<TicketV>, pred: spec_fn(TicketV) -> bool)
    requires
        forall|j: int| 0 <= j < s.len() ==> pred(#[trigger] s[j]),
    ensures
        tickets_where(s, pred) == s,
    decreases s.len(),
{
    if s.len() > 0 {
        let d = s.drop_last();
        assert(forall|j: int| 0 <= j < d.len() ==> pred(#[trigger] d[j]));
        lemma_tickets_where_all(d, pred);
        assert(pred(s.last()));
        assert(tickets_where(s, pred) =~= s);
    }
}

} // verus!
