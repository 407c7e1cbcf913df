//! The rows that one transaction works on.

use crate::models::{
    archive_rows, ledger_rows, outbox_rows, rows, slot_rows, Action, ArchiveRow, Batch, LedgerRow,
    Link, OutboxRow, RuleSlot, SlotRow, Task, TaskArchive, TaskRow, WebhookExecution,
    WebhookOutbox,
};
use crate::db::task_crud::charges_ok;
use crate::db::webhook_outbox::keys_disjoint;
use crate::workers::delivery_loop::attempts_fit;
use crate::workers::propagation::{counters_fit, unique_ids};
use crate::workers::start_task::ledger_attempts_fit;
use std::collections::HashSet;
use vstd::hash_set::StringHashSet;
use vstd::prelude::*;

verus! {

/// The tables, as far as a transaction loaded them. Links join tasks of one
/// batch, so the tasks and links of the batches concerned are all there.
#[derive(Debug)]
pub struct Store {
    /// Tasks.
    pub tasks: Vec<Task>,
    /// Dependencies.
    pub links: Vec<Link>,
    /// Batches with a webhook, a scope or metadata.
    pub batches: Vec<Batch>,
    /// Slots of start rules.
    pub slots: Vec<RuleSlot>,
    /// Webhook deliveries that are due or in flight.
    pub outbox: Vec<WebhookOutbox>,
    /// Record of webhook events.
    pub ledger: Vec<WebhookExecution>,
    /// Webhook actions of the tasks.
    pub actions: Vec<Action>,
    /// Archived tasks.
    pub archive: Vec<TaskArchive>,
}

/// The tables, viewed mathematically.
#[verifier::ext_equal]
pub struct Tables {
    pub tasks: Seq<TaskRow>,
    pub links: Seq<Link>,
    pub batches: Seq<Batch>,
    pub slots: Seq<SlotRow>,
    pub outbox: Seq<OutboxRow>,
    pub ledger: Seq<LedgerRow>,
    pub actions: Seq<Action>,
    pub archive: Seq<ArchiveRow>,
}

impl View for Store {
    type V = Tables;

    open spec fn view(&self) -> Tables {
        Tables {
            tasks: rows(self.tasks@),
            links: self.links@,
            batches: self.batches@,
            slots: slot_rows(self.slots@),
            outbox: outbox_rows(self.outbox@),
            ledger: ledger_rows(self.ledger@),
            actions: self.actions@,
            archive: archive_rows(self.archive@),
        }
    }
}

impl Tables {
    /// Task identifiers are unique, no task carries a negative charge, and the
    /// dependency counters leave room to be decremented.
    pub open spec fn wf(self) -> bool {
        &&& unique_ids(self.tasks)
        &&& charges_ok(self.tasks)
        &&& counters_fit(self.tasks, self.links)
    }

    /// No event is queued twice, recorded twice or both, and no counter of attempts is
    /// at its limit.
    pub open spec fn events_wf(self) -> bool {
        &&& keys_disjoint(self.outbox, self.ledger)
        &&& attempts_fit(self.outbox)
        &&& ledger_attempts_fit(self.ledger)
    }
}

impl Store {
    /// A store without rows.
    pub fn new() -> (r: Self)
        ensures
            r@ == (Tables {
                tasks: Seq::empty(),
                links: Seq::empty(),
                batches: Seq::empty(),
                slots: Seq::empty(),
                outbox: Seq::empty(),
                ledger: Seq::empty(),
                actions: Seq::empty(),
                archive: Seq::empty(),
            }),
            r@.wf(),
    {
        let r: Store = Store {
            tasks: Vec::new(),
            links: Vec::new(),
            batches: Vec::new(),
            slots: Vec::new(),
            outbox: Vec::new(),
            ledger: Vec::new(),
            actions: Vec::new(),
            archive: Vec::new(),
        };
        proof {
            assert(rows(r.tasks@) =~= Seq::empty());
            assert(slot_rows(r.slots@) =~= Seq::empty());
            assert(outbox_rows(r.outbox@) =~= Seq::empty());
            assert(ledger_rows(r.ledger@) =~= Seq::empty());
            assert(archive_rows(r.archive@) =~= Seq::empty());
        }
        r
    }

    /// Whether the rows are such as the operations on them start from and leave
    /// behind: executable form of [`Tables::wf`].
    pub fn is_wf(&self) -> (r: bool)
        ensures
            r == self@.wf(),
    {
        broadcast use vstd::std_specs::hash::group_hash_axioms;

        let ghost rs = self@.tasks;
        let links: i128 = self.links.len() as i128;
        let mut seen: HashSet<u128> = HashSet::new();
        let mut i: usize = 0;
        while i < self.tasks.len()
            invariant
                i <= self.tasks@.len(),
                rs == self@.tasks,
                links == self@.links.len(),
                links <= usize::MAX,
                forall|x: u128|
                    #![trigger seen@.contains(x)]
                    seen@.contains(x) <==> exists|k: int| 0 <= k < i && #[trigger] rs[k].id == x,
                unique_ids(rs.take(i as int)),
                charges_ok(rs.take(i as int)),
                counters_fit(rs.take(i as int), self@.links),
            decreases self.tasks.len() - i,
        {
            broadcast use vstd::std_specs::hash::group_hash_axioms;

            let t: &Task = &self.tasks[i];
            let ghost before = seen@;
            proof {
                assert(rs[i as int] == t@);
                assert(rs.len() == self.tasks@.len());
            }
            if !seen.insert(t.id) {
                proof {
                    let k = choose|k: int| 0 <= k < i && #[trigger] rs[k].id == t.id;
                    assert(rs[k].id == rs[i as int].id);
                }
                return false;
            }
            if let Some(c) = t.capacity_charge {
                if c < 0 {
                    return false;
                }
            }
            let left: i128 = t.wait_finished as i128 - links - 1;
            if t.status.is_blocked() && (left < i32::MIN as i128 || t.wait_success == i32::MIN) {
                return false;
            }
            proof {
                let a = rs.take(i as int);
                let b = rs.take(i + 1);
                assert forall|x: u128| #![trigger seen@.contains(x)]
                    seen@.contains(x) <==> exists|k: int|
                        0 <= k < i + 1 && #[trigger] rs[k].id == x by {
                    if before.contains(x) {
                        let k = choose|k: int| 0 <= k < i && #[trigger] rs[k].id == x;
                        assert(rs[k].id == x);
                    }
                    assert(rs[i as int].id == t.id);
                }
                assert forall|j: int, k: int|
                    0 <= j < b.len() && 0 <= k < b.len() && #[trigger] b[j].id
                        == #[trigger] b[k].id implies j == k by {
                    if j < i && k < i {
                        assert(a[j].id == a[k].id);
                    } else if j < i {
                        assert(rs[j].id == t.id);
                        assert(!before.contains(t.id));
                    } else if k < i {
                        assert(rs[k].id == t.id);
                        assert(!before.contains(t.id));
                    }
                }
                assert forall|j: int|
                    0 <= j < b.len() && (
                    #[trigger] b[j]).capacity_charge is Some implies b[j].capacity_charge->0 >= 0 by {
                    if j < i {
                        assert(a[j].capacity_charge is Some);
                    }
                }
                assert forall|j: int| 0 <= j < b.len() && (
                #[trigger] b[j]).status.blocked() implies b[j].wait_finished - self@.links.len()
                    - 1 >= i32::MIN && b[j].wait_success - 1 >= i32::MIN by {
                    if j < i {
                        assert(a[j].status.blocked());
                    }
                }
            }
            i += 1;
        }
        assert(rs.take(i as int) =~= rs);
        true
    }

    /// Whether the events are such as the operations on them start from: executable form
    /// of [`Tables::events_wf`].
    pub fn is_events_wf(&self) -> (r: bool)
        ensures
            r == self@.events_wf(),
    {
        let ghost os = self@.outbox;
        let ghost ls = self@.ledger;
        let mut keys: StringHashSet = StringHashSet::new();
        let mut i: usize = 0;
        while i < self.outbox.len()
            invariant
                i <= self.outbox@.len(),
                os == self@.outbox,
                forall|x: Seq<char>|
                    #![trigger keys@.contains(x)]
                    keys@.contains(x) <==> exists|k: int| 0 <= k < i && #[trigger] os[k].key == x,
                forall|j: int, k: int|
                    #![trigger os[j], os[k]]
                    0 <= j < i && 0 <= k < i && os[j].key == os[k].key ==> j == k,
                forall|k: int| 0 <= k < i ==> (#[trigger] os[k]).attempts < i32::MAX,
            decreases self.outbox.len() - i,
        {
            let o: &WebhookOutbox = &self.outbox[i];
            let ghost before = keys@;
            assert(os[i as int] == o@);
            if !keys.insert(o.idempotency_key.clone()) {
                proof {
                    let k = choose|k: int|
                        0 <= k < i && #[trigger] os[k].key == o.idempotency_key@;
                    assert(os[k].key == os[i as int].key);
                }
                return false;
            }
            if o.attempts == i32::MAX {
                return false;
            }
            assert forall|x: Seq<char>| #![trigger keys@.contains(x)]
                keys@.contains(x) <==> exists|k: int|
                    0 <= k < i + 1 && #[trigger] os[k].key == x by {
                if before.contains(x) {
                    let k = choose|k: int| 0 <= k < i && #[trigger] os[k].key == x;
                    assert(os[k].key == x);
                }
                assert(os[i as int].key == o.idempotency_key@);
            }
            assert forall|k: int| 0 <= k < i implies (#[trigger] os[k]).key
                != o.idempotency_key@ by {
                assert(before.contains(os[k].key));
            }
            i += 1;
        }
        let mut j: usize = 0;
        while j < self.ledger.len()
            invariant
                j <= self.ledger@.len(),
                os == self@.outbox,
                ls == self@.ledger,
                forall|x: Seq<char>|
                    #![trigger keys@.contains(x)]
                    keys@.contains(x) <==> (exists|k: int|
                        0 <= k < os.len() && #[trigger] os[k].key == x) || (exists|k: int|
                        0 <= k < j && #[trigger] ls[k].key == x),
                forall|k: int, l: int|
                    #![trigger ls[k], ls[l]]
                    0 <= k < j && 0 <= l < j && ls[k].key == ls[l].key ==> k == l,
                forall|k: int, l: int|
                    #![trigger os[k], ls[l]]
                    0 <= k < os.len() && 0 <= l < j ==> os[k].key != ls[l].key,
                forall|k: int| 0 <= k < j ==> (#[trigger] ls[k]).attempts < i32::MAX,
            decreases self.ledger.len() - j,
        {
            let e: &WebhookExecution = &self.ledger[j];
            let ghost before = keys@;
            assert(ls[j as int] == e@);
            if !keys.insert(e.idempotency_key.clone()) {
                proof {
                    if exists|k: int| 0 <= k < j && #[trigger] ls[k].key == e.idempotency_key@ {
                        let k = choose|k: int|
                            0 <= k < j && #[trigger] ls[k].key == e.idempotency_key@;
                        assert(ls[k].key == ls[j as int].key);
                    } else {
                        let k = choose|k: int|
                            0 <= k < os.len() && #[trigger] os[k].key == e.idempotency_key@;
                        assert(os[k].key == ls[j as int].key);
                    }
                }
                return false;
            }
            if e.attempts == i32::MAX {
                return false;
            }
            assert forall|x: Seq<char>| #![trigger keys@.contains(x)]
                keys@.contains(x) <==> (exists|k: int|
                    0 <= k < os.len() && #[trigger] os[k].key == x) || (exists|k: int|
                    0 <= k < j + 1 && #[trigger] ls[k].key == x) by {
                if before.contains(x) && exists|k: int| 0 <= k < j && #[trigger] ls[k].key == x {
                    let k = choose|k: int| 0 <= k < j && #[trigger] ls[k].key == x;
                    assert(ls[k].key == x);
                }
                assert(ls[j as int].key == e.idempotency_key@);
            }
            assert forall|k: int| 0 <= k < j implies (#[trigger] ls[k]).key
                != e.idempotency_key@ by {
                assert(before.contains(ls[k].key));
            }
            assert forall|k: int| 0 <= k < os.len() implies (#[trigger] os[k]).key
                != e.idempotency_key@ by {
                assert(before.contains(os[k].key));
            }
            j += 1;
        }
        true
    }
}

} // verus!
