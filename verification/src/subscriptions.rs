//! Webhook subscriptions: which are valid, and which want to hear of a change.
use vstd::prelude::*;
use vstd::utf8::encode_utf8;

use crate::changes::{ChangeOperation, EntityChange};
use crate::errors::{invalid, memory, MCSError, Result};
use crate::ids;
use crate::ids::{parse_uuid, random_uuid};
use crate::json;
use crate::json::{json_list, parse_json_list};
use crate::text;
use crate::text::{byte_len, copy_texts, has_control, holds_text, same, trim};

verus! {

#[derive(Debug)]
pub struct WebhookSubscription {
    pub subscription_id: u128,
    pub endpoint: String,
    pub event_operations: Vec<ChangeOperation>,
    pub entity_types: Vec<String>,
    pub ignored_origins: Vec<String>,
    pub consumer_origin: String,
    pub secret_ref: String,
    pub enabled: bool,
}

/// What a [`WebhookSubscription`] holds.
#[verifier::ext_equal]
pub struct SubscriptionData {
    pub subscription_id: u128,
    pub endpoint: Seq<char>,
    pub event_operations: Seq<ChangeOperation>,
    pub entity_types: Seq<Seq<char>>,
    pub ignored_origins: Seq<Seq<char>>,
    pub consumer_origin: Seq<char>,
    pub secret_ref: Seq<char>,
    pub enabled: bool,
}

impl View for WebhookSubscription {
    type V = SubscriptionData;

    open spec fn view(&self) -> SubscriptionData {
        SubscriptionData {
            subscription_id: self.subscription_id,
            endpoint: self.endpoint@,
            event_operations: self.event_operations@,
            entity_types: text::texts(self.entity_types@),
            ignored_origins: text::texts(self.ignored_origins@),
            consumer_origin: self.consumer_origin@,
            secret_ref: self.secret_ref@,
            enabled: self.enabled,
        }
    }
}

/// No scalar value of the text is a control code.
pub open spec fn uncontrolled(s: Seq<char>) -> bool {
    forall|i: int| 0 <= i < s.len() ==> !text::control(#[trigger] s[i])
}

impl SubscriptionData {
    /// The subscription is one that may be stored.
    pub open spec fn valid(self) -> bool {
        &&& text::trimmed(self.endpoint).len() > 0
        &&& text::trimmed(self.consumer_origin).len() > 0
        &&& text::trimmed(self.secret_ref).len() > 0
        &&& encode_utf8(self.endpoint).len() <= 2048
        &&& encode_utf8(self.consumer_origin).len() <= 256
        &&& encode_utf8(self.secret_ref).len() <= 512
        &&& uncontrolled(self.consumer_origin)
        &&& uncontrolled(self.secret_ref)
    }

    /// The subscription wants to hear of the change: it is enabled, the change
    /// does not come from its own consumer or from an origin that it ignores,
    /// and it asks for the operation and the type, or for all.
    pub open spec fn wants(
        self,
        operation: ChangeOperation,
        entity_type: Seq<char>,
        origin: Seq<char>,
    ) -> bool {
        &&& self.enabled
        &&& self.consumer_origin != origin
        &&& !self.ignored_origins.contains(origin)
        &&& self.event_operations.len() == 0 || self.event_operations.contains(operation)
        &&& self.entity_types.len() == 0 || self.entity_types.contains(entity_type)
    }
}

fn is_uncontrolled(s: &str) -> (r: bool)
    ensures
        r == uncontrolled(s@),
{
    let controlled: bool = has_control(s);
    proof {
        if controlled {
            let i = choose|i: int| 0 <= i < s@.len() && text::control(s@[i]);
            assert(text::control(s@[i]));
        }
    }
    !controlled
}

fn copy_operations(v: &Vec<ChangeOperation>) -> (r: Vec<ChangeOperation>)
    ensures
        r@ == v@,
{
    let mut out: Vec<ChangeOperation> = Vec::new();
    let mut i: usize = 0;
    while i < v.len()
        invariant
            i <= v@.len(),
            out@ == v@.take(i as int),
        decreases v@.len() - i,
    {
        out.push(v[i]);
        assert(out@ =~= v@.take(i + 1));
        i += 1;
    }
    assert(v@.take(v@.len() as int) =~= v@);
    out
}

fn holds_operation(v: &Vec<ChangeOperation>, x: ChangeOperation) -> (r: bool)
    ensures
        r == v@.contains(x),
{
    let mut i: usize = 0;
    while i < v.len()
        invariant
            i <= v@.len(),
            forall|j: int| 0 <= j < i ==> #[trigger] v@[j] != x,
        decreases v@.len() - i,
    {
        if v[i] == x {
            return true;
        }
        i += 1;
    }
    false
}

impl Clone for WebhookSubscription {
    fn clone(&self) -> (r: Self)
        ensures
            r@ == self@,
    {
        WebhookSubscription {
            subscription_id: self.subscription_id,
            endpoint: self.endpoint.clone(),
            event_operations: copy_operations(&self.event_operations),
            entity_types: copy_texts(&self.entity_types),
            ignored_origins: copy_texts(&self.ignored_origins),
            consumer_origin: self.consumer_origin.clone(),
            secret_ref: self.secret_ref.clone(),
            enabled: self.enabled,
        }
    }
}

impl WebhookSubscription {
    /// Accepts the subscription, or refuses it.
    pub fn validate(self) -> (r: Result<Self>)
        ensures
            match r {
                Ok(s) => self@.valid() && s == self,
                Err(e) => !self@.valid() && (e matches MCSError::InvalidParams(m) && m@
                    == "invalid webhook subscription"@),
            },
    {
        if trim(&self.endpoint).as_str().is_empty() || trim(&self.consumer_origin).as_str().is_empty()
            || trim(&self.secret_ref).as_str().is_empty() || byte_len(&self.endpoint) > 2048 || byte_len(
            &self.consumer_origin,
        ) > 256 || byte_len(&self.secret_ref) > 512 || !is_uncontrolled(&self.consumer_origin)
            || !is_uncontrolled(&self.secret_ref) {
            return Err(invalid("invalid webhook subscription"));
        }
        Ok(self)
    }

    /// Whether the subscription wants to hear of a change.
    pub fn is_wanted(&self, operation: ChangeOperation, entity_type: &str, origin: &str) -> (r: bool)
        ensures
            r == self@.wants(operation, entity_type@, origin@),
    {
        self.enabled && !same(&self.consumer_origin, origin) && !holds_text(&self.ignored_origins, origin)
            && (self.event_operations.len() == 0 || holds_operation(&self.event_operations, operation))
            && (self.entity_types.len() == 0 || holds_text(&self.entity_types, entity_type))
    }
}

/// One stored subscription, with the times at which it was made and changed.
#[derive(Debug)]
pub struct SubscriptionEntry {
    pub subscription: WebhookSubscription,
    pub created_at_us: i64,
    pub updated_at_us: i64,
}

/// What a [`SubscriptionEntry`] holds.
#[verifier::ext_equal]
pub struct SubscriptionEntryData {
    pub subscription: SubscriptionData,
    pub created_at_us: i64,
    pub updated_at_us: i64,
}

impl View for SubscriptionEntry {
    type V = SubscriptionEntryData;

    open spec fn view(&self) -> SubscriptionEntryData {
        SubscriptionEntryData {
            subscription: self.subscription@,
            created_at_us: self.created_at_us,
            updated_at_us: self.updated_at_us,
        }
    }
}

/// A delivery that is still to be made.
#[derive(Clone, Copy, Debug, PartialEq, Eq, Structural)]
pub struct Delivery {
    pub delivery_id: u128,
    pub event_id: u128,
    pub subscription_id: u128,
}

/// What the entries hold.
pub open spec fn entries_data(v: Seq<SubscriptionEntry>) -> Seq<SubscriptionEntryData> {
    v.map_values(|e: SubscriptionEntry| e@)
}

/// What the subscriptions hold.
pub open spec fn subscriptions_data(v: Seq<WebhookSubscription>) -> Seq<SubscriptionData> {
    v.map_values(|s: WebhookSubscription| s@)
}

/// The entry is older than the other, or as old and its identifier is lower.
pub open spec fn older(a: SubscriptionEntryData, b: SubscriptionEntryData) -> bool {
    ||| a.created_at_us < b.created_at_us
    ||| a.created_at_us == b.created_at_us && a.subscription.subscription_id
        < b.subscription.subscription_id
}

/// The entries stand in order, the oldest first, each identifier once.
pub open spec fn in_order(v: Seq<SubscriptionEntryData>) -> bool {
    &&& forall|i: int, j: int| 0 <= i < j < v.len() ==> older(#[trigger] v[i], #[trigger] v[j])
    &&& forall|i: int, j: int|
        0 <= i < j < v.len() ==> (#[trigger] v[i]).subscription.subscription_id != (
        #[trigger] v[j]).subscription.subscription_id
}

/// Some entry has the identifier.
pub open spec fn has_id(v: Seq<SubscriptionEntryData>, id: u128) -> bool {
    exists|i: int| 0 <= i < v.len() && (#[trigger] v[i]).subscription.subscription_id == id
}

/// The type of the entity that a change is about: as it is afterwards, or as
/// it was.
pub open spec fn type_of_change(change: EntityChange) -> Option<Seq<char>> {
    match change.after {
        Some(s) => Some(s.entity_type@),
        None => match change.before {
            Some(s) => Some(s.entity_type@),
            None => None,
        },
    }
}

/// The subscriptions that want to hear of the change, in order.
pub open spec fn wanting(
    v: Seq<SubscriptionEntryData>,
    operation: ChangeOperation,
    entity_type: Seq<char>,
    origin: Seq<char>,
) -> Seq<SubscriptionData>
    decreases v.len(),
{
    if v.len() == 0 {
        Seq::empty()
    } else {
        let before = wanting(v.drop_last(), operation, entity_type, origin);
        if v.last().subscription.wants(operation, entity_type, origin) {
            before.push(v.last().subscription)
        } else {
            before
        }
    }
}

/// A delivery of the event to the subscription is in the list.
pub open spec fn queued(v: Seq<Delivery>, event_id: u128, subscription_id: u128) -> bool {
    exists|i: int|
        0 <= i < v.len() && (#[trigger] v[i]).event_id == event_id && v[i].subscription_id
            == subscription_id
}

/// The stored subscriptions, and what is still to be delivered.
#[derive(Debug)]
pub struct SubscriptionRepository {
    rows: Vec<SubscriptionEntry>,
    outbox: Vec<Delivery>,
}

impl SubscriptionRepository {
    /// The stored subscriptions.
    pub closed spec fn entries(self) -> Seq<SubscriptionEntryData> {
        entries_data(self.rows@)
    }

    /// What is still to be delivered.
    pub closed spec fn deliveries(self) -> Seq<Delivery> {
        self.outbox@
    }

    #[verifier::type_invariant]
    spec fn inv(self) -> bool {
        in_order(entries_data(self.rows@))
    }

    /// Nothing stored.
    pub fn new() -> (r: Self)
        ensures
            r.entries() == Seq::<SubscriptionEntryData>::empty(),
            r.deliveries() == Seq::<Delivery>::empty(),
    {
        let r: SubscriptionRepository = SubscriptionRepository { rows: Vec::new(), outbox: Vec::new() };
        assert(entries_data(r.rows@) =~= Seq::<SubscriptionEntryData>::empty());
        r
    }
}

/// The identifiers of the subscriptions to which the event is not yet queued,
/// each once.
pub open spec fn unqueued(subs: Seq<SubscriptionData>, outbox: Seq<Delivery>, event_id: u128) -> Seq<
    u128,
>
    decreases subs.len(),
{
    if subs.len() == 0 {
        Seq::empty()
    } else {
        let before = unqueued(subs.drop_last(), outbox, event_id);
        let id = subs.last().subscription_id;
        if queued(outbox, event_id, id) || before.contains(id) {
            before
        } else {
            before.push(id)
        }
    }
}

fn is_older(a: &SubscriptionEntry, created_at_us: i64, id: u128) -> (r: bool)
    ensures
        r == (a.created_at_us < created_at_us || (a.created_at_us == created_at_us
            && a.subscription.subscription_id < id)),
{
    a.created_at_us < created_at_us || (a.created_at_us == created_at_us
        && a.subscription.subscription_id < id)
}

fn position(rows: &Vec<SubscriptionEntry>, id: u128) -> (r: Option<usize>)
    ensures
        match r {
            Some(i) => i < rows@.len() && rows@[i as int].subscription.subscription_id == id,
            None => !has_id(entries_data(rows@), id),
        },
{
    let mut i: usize = 0;
    while i < rows.len()
        invariant
            i <= rows@.len(),
            forall|j: int|
                0 <= j < i ==> (#[trigger] entries_data(rows@)[j]).subscription.subscription_id != id,
        decreases rows@.len() - i,
    {
        if rows[i].subscription.subscription_id == id {
            return Some(i);
        }
        i += 1;
    }
    None
}

fn is_queued(outbox: &Vec<Delivery>, event_id: u128, subscription_id: u128) -> (r: bool)
    ensures
        r == queued(outbox@, event_id, subscription_id),
{
    let mut i: usize = 0;
    while i < outbox.len()
        invariant
            i <= outbox@.len(),
            forall|j: int|
                0 <= j < i ==> !((#[trigger] outbox@[j]).event_id == event_id
                    && outbox@[j].subscription_id == subscription_id),
        decreases outbox@.len() - i,
    {
        if outbox[i].event_id == event_id && outbox[i].subscription_id == subscription_id {
            return true;
        }
        i += 1;
    }
    false
}

impl SubscriptionRepository {
    /// Takes stored subscriptions, given in order; nothing where they are not.
    pub fn from_rows(rows: Vec<SubscriptionEntry>, outbox: Vec<Delivery>) -> (r: Option<Self>)
        ensures
            match r {
                Some(s) => in_order(entries_data(rows@)) && s.entries() == entries_data(rows@)
                    && s.deliveries() == outbox@,
                None => !in_order(entries_data(rows@)),
            },
    {
        let ghost all = entries_data(rows@);
        let mut i: usize = 0;
        while i < rows.len()
            invariant
                i <= rows@.len(),
                all == entries_data(rows@),
                in_order(all.take(i as int)),
            decreases rows@.len() - i,
        {
            let created: i64 = rows[i].created_at_us;
            let id: u128 = rows[i].subscription.subscription_id;
            let mut k: usize = 0;
            while k < i
                invariant
                    k <= i < rows@.len(),
                    all == entries_data(rows@),
                    created == all[i as int].created_at_us,
                    id == all[i as int].subscription.subscription_id,
                    forall|j: int|
                        0 <= j < k ==> older(#[trigger] all[j], all[i as int])
                            && all[j].subscription.subscription_id != id,
                decreases i - k,
            {
                if !is_older(&rows[k], created, id) || rows[k].subscription.subscription_id == id {
                    assert(!older(all[k as int], all[i as int])
                        || all[k as int].subscription.subscription_id
                        == all[i as int].subscription.subscription_id);
                    return None;
                }
                assert(older(all[k as int], all[i as int]));
                k += 1;
            }
            assert(in_order(all.take(i + 1))) by {
                let t = all.take(i + 1);
                let u = all.take(i as int);
                assert forall|x: int, y: int| 0 <= x < y < t.len() implies older(
                    #[trigger] t[x],
                    #[trigger] t[y],
                ) && t[x].subscription.subscription_id != t[y].subscription.subscription_id by {
                    if y < i {
                        assert(older(u[x], u[y]));
                        assert(u[x].subscription.subscription_id != u[y].subscription.subscription_id);
                    } else {
                        assert(older(all[x], all[i as int]));
                    }
                }
            }
            i += 1;
        }
        assert(all.take(all.len() as int) =~= all);
        Some(SubscriptionRepository { rows, outbox })
    }

    /// Stores a subscription. One with the same identifier is replaced and
    /// keeps its place and the time at which it was made.
    pub fn upsert(&mut self, subscription: WebhookSubscription, now: i64) -> (r: Result<()>)
        ensures
            final(self).deliveries() == old(self).deliveries(),
            r is Ok <==> subscription@.valid(),
            r matches Err(e) ==> final(self).entries() == old(self).entries() && (e
                matches MCSError::InvalidParams(m) && m@ == "invalid webhook subscription"@),
            r is Ok && has_id(old(self).entries(), subscription.subscription_id) ==> final(self).entries() == old(self).entries().map_values(
                |e: SubscriptionEntryData|
                    if e.subscription.subscription_id == subscription.subscription_id {
                        SubscriptionEntryData { subscription: subscription@, updated_at_us: now, ..e }
                    } else {
                        e
                    },
            ),
            r is Ok && !has_id(old(self).entries(), subscription.subscription_id) ==> in_order(
                final(self).entries(),
            ) && exists|k: int|
                0 <= k <= old(self).entries().len() && final(self).entries() == #[trigger] old(self).entries().insert(
                    k,
                    SubscriptionEntryData {
                        subscription: subscription@,
                        created_at_us: now,
                        updated_at_us: now,
                    },
                ),
    {
        let subscription: WebhookSubscription = match subscription.validate() {
            Ok(s) => s,
            Err(e) => {
                return Err(e);
            },
        };
        proof {
            use_type_invariant(&*self);
        }
        let id: u128 = subscription.subscription_id;
        let mut rows: Vec<SubscriptionEntry> = Vec::new();
        assert(entries_data(rows@) =~= Seq::<SubscriptionEntryData>::empty());
        std::mem::swap(&mut rows, &mut self.rows);
        let ghost start = entries_data(rows@);
        match position(&rows, id) {
            Some(i) => {
                assert(start[i as int].subscription.subscription_id == id);
                let ghost d = subscription@;
                rows[i].subscription = subscription;
                rows[i].updated_at_us = now;
                let ghost f = |e: SubscriptionEntryData|
                    if e.subscription.subscription_id == id {
                        SubscriptionEntryData { subscription: d, updated_at_us: now, ..e }
                    } else {
                        e
                    };
                let ghost after = entries_data(rows@);
                assert(after =~= start.map_values(f)) by {
                    assert forall|j: int| 0 <= j < start.len() implies #[trigger] after[j] == f(start[j]) by {
                        if j != i {
                            if j < i {
                                assert(start[j].subscription.subscription_id
                                    != start[i as int].subscription.subscription_id);
                            } else {
                                assert(start[i as int].subscription.subscription_id
                                    != start[j].subscription.subscription_id);
                            }
                        }
                    }
                }
                assert(in_order(after)) by {
                    assert forall|x: int, y: int| 0 <= x < y < after.len() implies older(
                        #[trigger] after[x],
                        #[trigger] after[y],
                    ) && after[x].subscription.subscription_id != after[y].subscription.subscription_id by {
                        assert(older(start[x], start[y]));
                        assert(start[x].subscription.subscription_id
                            != start[y].subscription.subscription_id);
                    }
                }
                self.rows = rows;
            },
            None => {
                let ghost d = SubscriptionEntryData {
                    subscription: subscription@,
                    created_at_us: now,
                    updated_at_us: now,
                };
                let mut k: usize = 0;
                while k < rows.len() && is_older(&rows[k], now, id)
                    invariant
                        k <= rows@.len(),
                        start == entries_data(rows@),
                        d.created_at_us == now,
                        d.subscription.subscription_id == id,
                        forall|j: int| 0 <= j < k ==> older(#[trigger] start[j], d),
                    decreases rows@.len() - k,
                {
                    k += 1;
                }
                rows.insert(
                    k,
                    SubscriptionEntry { subscription, created_at_us: now, updated_at_us: now },
                );
                let ghost after = entries_data(rows@);
                assert(after =~= start.insert(k as int, d));
                assert(in_order(after)) by {
                    assert forall|j: int| k <= j < start.len() implies older(d, #[trigger] start[j]) by {
                        assert(start[j].subscription.subscription_id != id);
                        assert(start[k as int].subscription.subscription_id != id);
                        assert(!older(start[k as int], d));
                        if j > k {
                            assert(older(start[k as int], start[j]));
                        }
                    }
                    assert forall|x: int, y: int| 0 <= x < y < after.len() implies older(
                        #[trigger] after[x],
                        #[trigger] after[y],
                    ) && after[x].subscription.subscription_id != after[y].subscription.subscription_id by {
                        let x0 = if x < k {
                            x
                        } else {
                            x - 1
                        };
                        let y0 = if y < k {
                            y
                        } else {
                            y - 1
                        };
                        if x != k && y != k {
                            assert(older(start[x0], start[y0]));
                            assert(start[x0].subscription.subscription_id
                                != start[y0].subscription.subscription_id);
                        } else if x == k {
                            assert(older(d, start[y0]));
                            assert(start[y0].subscription.subscription_id != id);
                        } else {
                            assert(older(start[x0], d));
                            assert(start[x0].subscription.subscription_id != id);
                        }
                    }
                }
                self.rows = rows;
            },
        }
        Ok(())
    }

    /// The subscription with the identifier.
    pub fn get(&self, id: u128) -> (r: Option<WebhookSubscription>)
        ensures
            match r {
                Some(s) => exists|i: int|
                    0 <= i < self.entries().len() && (#[trigger] self.entries()[i]).subscription == s@
                        && s@.subscription_id == id,
                None => !has_id(self.entries(), id),
            },
    {
        match position(&self.rows, id) {
            Some(i) => {
                let s: WebhookSubscription = self.rows[i].subscription.clone();
                assert(self.entries()[i as int].subscription == s@);
                Some(s)
            },
            None => None,
        }
    }

    /// Removes the subscription with the identifier. Returns whether there was
    /// one.
    pub fn delete(&mut self, id: u128) -> (r: bool)
        ensures
            final(self).deliveries() == old(self).deliveries(),
            r == has_id(old(self).entries(), id),
            !r ==> final(self).entries() == old(self).entries(),
            r ==> exists|i: int|
                0 <= i < old(self).entries().len() && old(self).entries()[i].subscription.subscription_id
                    == id && final(self).entries() == #[trigger] old(self).entries().remove(i),
    {
        proof {
            use_type_invariant(&*self);
        }
        let mut rows: Vec<SubscriptionEntry> = Vec::new();
        assert(entries_data(rows@) =~= Seq::<SubscriptionEntryData>::empty());
        std::mem::swap(&mut rows, &mut self.rows);
        let ghost start = entries_data(rows@);
        match position(&rows, id) {
            Some(i) => {
                assert(start[i as int].subscription.subscription_id == id);
                rows.remove(i);
                let ghost after = entries_data(rows@);
                assert(after =~= start.remove(i as int));
                assert(in_order(after)) by {
                    assert forall|x: int, y: int| 0 <= x < y < after.len() implies older(
                        #[trigger] after[x],
                        #[trigger] after[y],
                    ) && after[x].subscription.subscription_id != after[y].subscription.subscription_id by {
                        let x0 = if x < i {
                            x
                        } else {
                            x + 1
                        };
                        let y0 = if y < i {
                            y
                        } else {
                            y + 1
                        };
                        assert(older(start[x0], start[y0]));
                        assert(start[x0].subscription.subscription_id
                            != start[y0].subscription.subscription_id);
                    }
                }
                self.rows = rows;
                assert(start == old(self).entries());
                assert(self.entries() == start.remove(i as int));
                assert(0 <= i < old(self).entries().len());
                true
            },
            None => {
                self.rows = rows;
                false
            },
        }
    }

    /// Every subscription, the oldest first.
    pub fn list(&self) -> (r: Vec<WebhookSubscription>)
        ensures
            subscriptions_data(r@) == self.entries().map_values(
                |e: SubscriptionEntryData| e.subscription,
            ),
            in_order(self.entries()),
    {
        proof {
            use_type_invariant(&*self);
        }
        let ghost f = |e: SubscriptionEntryData| e.subscription;
        let mut out: Vec<WebhookSubscription> = Vec::new();
        let mut i: usize = 0;
        assert(subscriptions_data(out@) =~= self.entries().take(0).map_values(f));
        while i < self.rows.len()
            invariant
                i <= self.rows@.len(),
                f == (|e: SubscriptionEntryData| e.subscription),
                subscriptions_data(out@) == self.entries().take(i as int).map_values(f),
            decreases self.rows@.len() - i,
        {
            let ghost done = subscriptions_data(out@);
            let s: WebhookSubscription = self.rows[i].subscription.clone();
            let ghost d = s@;
            out.push(s);
            assert(subscriptions_data(out@) =~= done.push(d));
            assert(subscriptions_data(out@) =~= self.entries().take(i + 1).map_values(f));
            i += 1;
        }
        assert(self.entries().take(self.entries().len() as int) =~= self.entries());
        out
    }

    /// The subscriptions that want to hear of the change, which came from the
    /// origin.
    pub fn matching(&self, change: &EntityChange, origin: &str) -> (r: Result<
        Vec<WebhookSubscription>,
    >)
        ensures
            match type_of_change(*change) {
                None => r matches Err(MCSError::MemoryError(m)) && m@ == "event missing entity snapshot"@,
                Some(kind) => r matches Ok(v) && subscriptions_data(v@) == wanting(
                    self.entries(),
                    change.operation,
                    kind,
                    origin@,
                ),
            },
    {
        let kind: &str = match &change.after {
            Some(s) => s.entity_type.as_str(),
            None => match &change.before {
                Some(s) => s.entity_type.as_str(),
                None => {
                    return Err(memory("event missing entity snapshot"));
                },
            },
        };
        let ghost all = self.entries();
        let mut out: Vec<WebhookSubscription> = Vec::new();
        let mut i: usize = 0;
        assert(all.take(0) =~= Seq::<SubscriptionEntryData>::empty());
        assert(subscriptions_data(out@) =~= Seq::<SubscriptionData>::empty());
        while i < self.rows.len()
            invariant
                i <= self.rows@.len(),
                all == self.entries(),
                subscriptions_data(out@) == wanting(
                    all.take(i as int),
                    change.operation,
                    kind@,
                    origin@,
                ),
            decreases self.rows@.len() - i,
        {
            assert(all.take(i + 1).drop_last() =~= all.take(i as int));
            assert(all.take(i + 1).last().subscription == self.rows@[i as int].subscription@);
            if self.rows[i].subscription.is_wanted(change.operation, kind, origin) {
                let ghost done = subscriptions_data(out@);
                let s: WebhookSubscription = self.rows[i].subscription.clone();
                let ghost d = s@;
                out.push(s);
                assert(subscriptions_data(out@) =~= done.push(d));
            }
            i += 1;
        }
        assert(all.take(all.len() as int) =~= all);
        Ok(out)
    }

    /// Queues a delivery of the event to every subscription that wants to hear
    /// of the change and does not have it yet. Returns how many were queued.
    pub fn enqueue_matching(&mut self, event_id: u128, change: &EntityChange, origin: &str) -> (r: Result<
        usize,
    >)
        ensures
            final(self).entries() == old(self).entries(),
            match type_of_change(*change) {
                None => final(self).deliveries() == old(self).deliveries() && (r matches Err(
                    MCSError::MemoryError(m),
                ) && m@ == "event missing entity snapshot"@),
                Some(kind) => {
                    let fresh = unqueued(
                        wanting(old(self).entries(), change.operation, kind, origin@),
                        old(self).deliveries(),
                        event_id,
                    );
                    &&& r matches Ok(n) && n == fresh.len()
                    &&& final(self).deliveries().len() == old(self).deliveries().len() + fresh.len()
                    &&& forall|i: int|
                        0 <= i < old(self).deliveries().len() ==> #[trigger] final(self).deliveries()[i]
                            == old(self).deliveries()[i]
                    &&& forall|i: int|
                        old(self).deliveries().len() <= i < final(self).deliveries().len() ==> {
                            let d = #[trigger] final(self).deliveries()[i];
                            &&& ids::is_random_uuid(d.delivery_id)
                            &&& d.event_id == event_id
                            &&& d.subscription_id == fresh[i - old(self).deliveries().len()]
                        }
                },
            },
    {
        let wanted: Vec<WebhookSubscription> = match self.matching(change, origin) {
            Ok(v) => v,
            Err(e) => {
                return Err(e);
            },
        };
        proof {
            use_type_invariant(&*self);
        }
        let mut outbox: Vec<Delivery> = Vec::new();
        std::mem::swap(&mut outbox, &mut self.outbox);
        let ghost start = outbox@;
        let ghost all = subscriptions_data(wanted@);
        let mut count: usize = 0;
        let mut i: usize = 0;
        assert(all.take(0) =~= Seq::<SubscriptionData>::empty());
        while i < wanted.len()
            invariant
                i <= wanted@.len(),
                count <= i,
                all == subscriptions_data(wanted@),
                self.rows == old(self).rows,
                in_order(entries_data(self.rows@)),
                start == old(self).deliveries(),
                count == unqueued(all.take(i as int), start, event_id).len(),
                outbox@.len() == start.len() + count,
                forall|j: int| 0 <= j < start.len() ==> #[trigger] outbox@[j] == start[j],
                forall|j: int|
                    start.len() <= j < outbox@.len() ==> {
                        let d = #[trigger] outbox@[j];
                        &&& ids::is_random_uuid(d.delivery_id)
                        &&& d.event_id == event_id
                        &&& d.subscription_id == unqueued(all.take(i as int), start, event_id)[j
                            - start.len()]
                    },
            decreases wanted@.len() - i,
        {
            let ghost before = unqueued(all.take(i as int), start, event_id);
            assert(all.take(i + 1).drop_last() =~= all.take(i as int));
            assert(all.take(i + 1).last() == wanted@[i as int]@);
            let id: u128 = wanted[i].subscription_id;
            let known: bool = is_queued(&outbox, event_id, id);
            assert(known == (queued(start, event_id, id) || before.contains(id))) by {
                if queued(start, event_id, id) {
                    let k = choose|k: int|
                        0 <= k < start.len() && (#[trigger] start[k]).event_id == event_id
                            && start[k].subscription_id == id;
                    assert(outbox@[k].event_id == event_id);
                }
                if before.contains(id) {
                    let k = before.index_of(id);
                    assert(outbox@[start.len() + k].subscription_id == id);
                }
                if known {
                    let k = choose|k: int|
                        0 <= k < outbox@.len() && (#[trigger] outbox@[k]).event_id == event_id
                            && outbox@[k].subscription_id == id;
                    if k < start.len() {
                        assert(start[k].event_id == event_id);
                    } else {
                        assert(before[k - start.len()] == id);
                    }
                }
            }
            if !known {
                outbox.push(Delivery { delivery_id: random_uuid(), event_id, subscription_id: id });
                count += 1;
            }
            i += 1;
        }
        assert(all.take(all.len() as int) =~= all);
        self.outbox = outbox;
        Ok(count)
    }
}

/// No subscription hears of a change that its own consumer made, so a
/// consumer that answers a delivery by a change does not set off another.
pub proof fn law_no_consumer_hears_its_own_change(
    v: Seq<SubscriptionEntryData>,
    operation: ChangeOperation,
    entity_type: Seq<char>,
    origin: Seq<char>,
)
    ensures
        forall|i: int|
            0 <= i < wanting(v, operation, entity_type, origin).len() ==> (#[trigger] wanting(
                v,
                operation,
                entity_type,
                origin,
            )[i]).consumer_origin != origin && wanting(v, operation, entity_type, origin)[i].enabled,
    decreases v.len(),
{
    if v.len() > 0 {
        law_no_consumer_hears_its_own_change(v.drop_last(), operation, entity_type, origin);
        let before = wanting(v.drop_last(), operation, entity_type, origin);
        let after = wanting(v, operation, entity_type, origin);
        assert forall|i: int| 0 <= i < after.len() implies (#[trigger] after[i]).consumer_origin != origin
            && after[i].enabled by {
            if i < before.len() {
                assert(after[i] == before[i]);
            }
        }
    }
}

/// Exactly those are told of a change that want to be: the subscription is
/// enabled, the change is neither its own consumer's nor from an origin that it
/// ignores, and it lists the operation, at whatever place, or none, and the type,
/// or none. They are told in the order in which they are stored.
pub proof fn law_who_is_told_of_a_change(
    v: Seq<SubscriptionEntryData>,
    operation: ChangeOperation,
    entity_type: Seq<char>,
    origin: Seq<char>,
    k: int,
)
    requires
        in_order(v),
        0 <= k < v.len(),
    ensures
        ({
            let s = v[k].subscription;
            wanting(v, operation, entity_type, origin).contains(s) <==> {
                &&& s.enabled
                &&& s.consumer_origin != origin
                &&& forall|i: int| 0 <= i < s.ignored_origins.len() ==> #[trigger] s.ignored_origins[i] != origin
                &&& s.event_operations.len() == 0 || exists|i: int|
                    0 <= i < s.event_operations.len() && #[trigger] s.event_operations[i] == operation
                &&& s.entity_types.len() == 0 || exists|i: int|
                    0 <= i < s.entity_types.len() && #[trigger] s.entity_types[i] == entity_type
            }
        }),
{
    let s = v[k].subscription;
    let told = wanting(v, operation, entity_type, origin);
    lemma_wanting(v, operation, entity_type, origin);
    if told.contains(s) {
        let j = choose|j: int|
            0 <= j < v.len() && (#[trigger] v[j]).subscription == s && v[j].subscription.wants(
                operation,
                entity_type,
                origin,
            );
        assert(s.wants(operation, entity_type, origin));
        if s.event_operations.len() > 0 {
            let i = s.event_operations.index_of(operation);
            assert(s.event_operations[i] == operation);
        }
        if s.entity_types.len() > 0 {
            let i = s.entity_types.index_of(entity_type);
            assert(s.entity_types[i] == entity_type);
        }
    }
}

/// Who is told of a change are subscriptions of the store, in its order, and no
/// one is told twice.
pub proof fn law_the_told_stand_in_order(
    v: Seq<SubscriptionEntryData>,
    operation: ChangeOperation,
    entity_type: Seq<char>,
    origin: Seq<char>,
    i: int,
    j: int,
)
    requires
        in_order(v),
        0 <= i < j < wanting(v, operation, entity_type, origin).len(),
    ensures
        wanting(v, operation, entity_type, origin)[i].subscription_id != wanting(v, operation, entity_type, origin)[j].subscription_id,
        exists|a: int, b: int|
            0 <= a < b < v.len() && (#[trigger] v[a]).subscription == wanting(v, operation, entity_type, origin)[i] && (
            #[trigger] v[b]).subscription == wanting(v, operation, entity_type, origin)[j],
    decreases v.len(),
{
    let front = v.drop_last();
    let before = wanting(front, operation, entity_type, origin);
    let told = wanting(v, operation, entity_type, origin);
    assert(in_order(front)) by {
        assert forall|x: int, y: int| 0 <= x < y < front.len() implies older(#[trigger] front[x], #[trigger] front[y])
            && front[x].subscription.subscription_id != front[y].subscription.subscription_id by {
            assert(older(v[x], v[y]));
        }
    }
    if j < before.len() {
        law_the_told_stand_in_order(front, operation, entity_type, origin, i, j);
        let (a, b) = choose|a: int, b: int|
            0 <= a < b < front.len() && (#[trigger] front[a]).subscription == before[i] && (
            #[trigger] front[b]).subscription == before[j];
        assert(v[a] == front[a] && v[b] == front[b]);
    } else {
        lemma_wanting(front, operation, entity_type, origin);
        assert(before.contains(before[i]));
        assert(told[i] == before[i]);
        let a = choose|a: int|
            0 <= a < front.len() && (#[trigger] front[a]).subscription == before[i] && front[a].subscription.wants(
                operation,
                entity_type,
                origin,
            );
        let b = v.len() - 1;
        assert(v[a] == front[a]);
        assert(v[b].subscription == told[j]);
        assert(v[a].subscription.subscription_id != v[b].subscription.subscription_id);
    }
}

proof fn lemma_wanting(
    v: Seq<SubscriptionEntryData>,
    operation: ChangeOperation,
    entity_type: Seq<char>,
    origin: Seq<char>,
)
    ensures
        forall|s: SubscriptionData| #[trigger]
            wanting(v, operation, entity_type, origin).contains(s) <==> exists|j: int|
                0 <= j < v.len() && (#[trigger] v[j]).subscription == s && v[j].subscription.wants(
                    operation,
                    entity_type,
                    origin,
                ),
    decreases v.len(),
{
    let told = wanting(v, operation, entity_type, origin);
    if v.len() > 0 {
        let front = v.drop_last();
        let before = wanting(front, operation, entity_type, origin);
        lemma_wanting(front, operation, entity_type, origin);
        let last = v.last().subscription;
        assert(v[v.len() - 1].subscription == last);
        assert forall|s: SubscriptionData| #[trigger] told.contains(s) <==> exists|j: int|
            0 <= j < v.len() && (#[trigger] v[j]).subscription == s && v[j].subscription.wants(
                operation,
                entity_type,
                origin,
            ) by {
            if told.contains(s) {
                let k = told.index_of(s);
                if k < before.len() {
                    assert(before[k] == s);
                    assert(before.contains(s));
                    let j = choose|j: int|
                        0 <= j < front.len() && (#[trigger] front[j]).subscription == s
                            && front[j].subscription.wants(operation, entity_type, origin);
                    assert(v[j] == front[j]);
                }
            }
            if exists|j: int|
                0 <= j < v.len() && (#[trigger] v[j]).subscription == s && v[j].subscription.wants(
                    operation,
                    entity_type,
                    origin,
                ) {
                let j = choose|j: int|
                    0 <= j < v.len() && (#[trigger] v[j]).subscription == s && v[j].subscription.wants(
                        operation,
                        entity_type,
                        origin,
                    );
                if j < front.len() {
                    assert(front[j] == v[j]);
                    assert(before.contains(s));
                    assert(told[before.index_of(s)] == s);
                } else {
                    assert(told[before.len() as int] == s);
                }
            }
        }
    } else {
        assert forall|s: SubscriptionData| !#[trigger] told.contains(s) by {}
    }
}

/// Each subscription that wants a change and does not have it gets it queued,
/// once, and no other does.
pub proof fn law_every_wanting_subscription_is_queued(
    subs: Seq<SubscriptionData>,
    outbox: Seq<Delivery>,
    event_id: u128,
    id: u128,
)
    ensures
        unqueued(subs, outbox, event_id).contains(id) <==> (exists|k: int|
            0 <= k < subs.len() && (#[trigger] subs[k]).subscription_id == id) && (forall|i: int|
            0 <= i < outbox.len() ==> !((#[trigger] outbox[i]).event_id == event_id && outbox[i].subscription_id
                == id)),
        unqueued(subs, outbox, event_id).no_duplicates(),
    decreases subs.len(),
{
    let all = unqueued(subs, outbox, event_id);
    if subs.len() > 0 {
        let front = subs.drop_last();
        let before = unqueued(front, outbox, event_id);
        law_every_wanting_subscription_is_queued(front, outbox, event_id, id);
        let last = subs.last().subscription_id;
        law_every_wanting_subscription_is_queued(front, outbox, event_id, last);
        assert(subs[subs.len() - 1].subscription_id == last);
        if before.contains(id) {
            assert(all[before.index_of(id)] == id);
            let k = choose|k: int| 0 <= k < front.len() && (#[trigger] front[k]).subscription_id == id;
            assert(subs[k].subscription_id == id);
        }
        if all.contains(id) {
            let k = all.index_of(id);
            if k < before.len() {
                assert(before[k] == id);
            }
        }
        if exists|k: int| 0 <= k < subs.len() && (#[trigger] subs[k]).subscription_id == id {
            let k = choose|k: int| 0 <= k < subs.len() && (#[trigger] subs[k]).subscription_id == id;
            if k < front.len() {
                assert(front[k].subscription_id == id);
            } else if all.len() > before.len() {
                assert(all[before.len() as int] == id);
            }
        }
    }
}

/// What an entity is counted as is its type afterwards or, once it is gone, its
/// type before; a change of neither is of no type.
pub proof fn law_a_change_is_of_the_type_it_leaves(change: EntityChange)
    ensures
        change.after matches Some(s) ==> type_of_change(change) == Some(s.entity_type@),
        change.after is None && change.before is Some ==> type_of_change(change) == Some(
            change.before->0.entity_type@,
        ),
        type_of_change(change) is None <==> change.after is None && change.before is None,
{
}

/// Queueing an event a second time queues nothing.
pub proof fn law_an_event_is_queued_once(
    subs: Seq<SubscriptionData>,
    before: Seq<Delivery>,
    after: Seq<Delivery>,
    event_id: u128,
)
    requires
        forall|i: int| 0 <= i < before.len() ==> after.contains(#[trigger] before[i]),
        forall|i: int|
            0 <= i < unqueued(subs, before, event_id).len() ==> queued(
                after,
                event_id,
                #[trigger] unqueued(subs, before, event_id)[i],
            ),
    ensures
        unqueued(subs, after, event_id).len() == 0,
    decreases subs.len(),
{
    if subs.len() > 0 {
        let part = unqueued(subs.drop_last(), before, event_id);
        let whole = unqueued(subs, before, event_id);
        assert forall|i: int| 0 <= i < part.len() implies queued(after, event_id, #[trigger] part[i]) by {
            assert(whole[i] == part[i]);
        }
        law_an_event_is_queued_once(subs.drop_last(), before, after, event_id);
        let id = subs.last().subscription_id;
        if queued(before, event_id, id) {
            let k = choose|k: int|
                0 <= k < before.len() && (#[trigger] before[k]).event_id == event_id
                    && before[k].subscription_id == id;
            assert(after.contains(before[k]));
            let n = after.index_of(before[k]);
            assert(after[n].event_id == event_id);
        } else if part.contains(id) {
            let k = part.index_of(id);
            assert(queued(after, event_id, part[k]));
        } else {
            assert(whole.last() == id);
            assert(whole[whole.len() - 1] == id);
        }
    }
}

// ---------------------------------------------------------------------------
// The stored form
// ---------------------------------------------------------------------------

/// A subscription as it is stored.
#[derive(Debug)]
pub struct SubscriptionRow {
    pub subscription_id: String,
    pub endpoint: String,
    pub event_operations: String,
    pub entity_types: String,
    pub ignored_origins: String,
    pub consumer_origin: String,
    pub secret_ref: String,
    pub enabled: bool,
}

/// The stored name of an operation.
pub open spec fn operation_name(op: ChangeOperation) -> Seq<char> {
    match op {
        ChangeOperation::Create => "create"@,
        ChangeOperation::Update => "update"@,
        ChangeOperation::Delete => "delete"@,
        ChangeOperation::Rename => "rename"@,
    }
}

/// The stored names of the operations.
pub open spec fn operation_names(v: Seq<ChangeOperation>) -> Seq<Seq<char>> {
    v.map_values(|op: ChangeOperation| operation_name(op))
}

proof fn lemma_operation_names_differ(a: ChangeOperation, b: ChangeOperation)
    requires
        operation_name(a) == operation_name(b),
    ensures
        a == b,
{
    reveal_strlit("create");
    reveal_strlit("update");
    reveal_strlit("delete");
    reveal_strlit("rename");
    assert("create"@[0] == 'c' && "update"@[0] == 'u' && "delete"@[0] == 'd' && "rename"@[0] == 'r');
}

fn read_operations(names: &Vec<String>) -> (r: Option<Vec<ChangeOperation>>)
    ensures
        match r {
            Some(v) => operation_names(v@) == text::texts(names@),
            None => forall|v: Seq<ChangeOperation>| #[trigger] operation_names(v) != text::texts(names@),
        },
{
    let mut out: Vec<ChangeOperation> = Vec::new();
    let mut i: usize = 0;
    assert(operation_names(out@) =~= text::texts(names@).take(0));
    while i < names.len()
        invariant
            i <= names@.len(),
            operation_names(out@) == text::texts(names@).take(i as int),
        decreases names@.len() - i,
    {
        let ghost done = operation_names(out@);
        let op: ChangeOperation = if same(&names[i], "create") {
            ChangeOperation::Create
        } else if same(&names[i], "update") {
            ChangeOperation::Update
        } else if same(&names[i], "delete") {
            ChangeOperation::Delete
        } else if same(&names[i], "rename") {
            ChangeOperation::Rename
        } else {
            proof {
                assert forall|v: Seq<ChangeOperation>| #[trigger] operation_names(v) != text::texts(names@) by {
                    if operation_names(v) == text::texts(names@) {
                        assert(operation_names(v).len() == v.len());
                        assert(text::texts(names@).len() == names@.len());
                        assert(operation_names(v)[i as int] == operation_name(v[i as int]));
                        assert(text::texts(names@)[i as int] == names@[i as int]@);
                    }
                }
            }
            return None;
        };
        out.push(op);
        assert(operation_names(out@) =~= done.push(operation_name(op)));
        assert(text::texts(names@).take(i + 1) =~= text::texts(names@).take(i as int).push(
            names@[i as int]@,
        ));
        i += 1;
    }
    assert(text::texts(names@).take(names@.len() as int) =~= text::texts(names@));
    Some(out)
}

fn write_operations(v: &Vec<ChangeOperation>) -> (r: Vec<String>)
    ensures
        text::texts(r@) == operation_names(v@),
{
    let mut out: Vec<String> = Vec::new();
    let mut i: usize = 0;
    assert(text::texts(out@) =~= operation_names(v@.take(0)));
    while i < v.len()
        invariant
            i <= v@.len(),
            text::texts(out@) == operation_names(v@.take(i as int)),
        decreases v@.len() - i,
    {
        let ghost done = text::texts(out@);
        let name: &str = match v[i] {
            ChangeOperation::Create => "create",
            ChangeOperation::Update => "update",
            ChangeOperation::Delete => "delete",
            ChangeOperation::Rename => "rename",
        };
        out.push(name.to_owned());
        assert(text::texts(out@) =~= done.push(name@));
        assert(text::texts(out@) =~= operation_names(v@.take(i + 1)));
        i += 1;
    }
    assert(v@.take(v@.len() as int) =~= v@);
    out
}

/// The subscription is what the row stores.
pub open spec fn decodes(row: SubscriptionRow, s: SubscriptionData) -> bool {
    &&& ids::uuid_of(row.subscription_id@) == Some(s.subscription_id)
    &&& s.endpoint == row.endpoint@
    &&& json::json_texts(row.event_operations@) == Some(operation_names(s.event_operations))
    &&& json::json_texts(row.entity_types@) == Some(s.entity_types)
    &&& json::json_texts(row.ignored_origins@) == Some(s.ignored_origins)
    &&& s.consumer_origin == row.consumer_origin@
    &&& s.secret_ref == row.secret_ref@
    &&& s.enabled == row.enabled
}

/// Reads a stored subscription.
pub fn decode(row: &SubscriptionRow) -> (r: Result<WebhookSubscription>)
    ensures
        match r {
            Ok(s) => decodes(*row, s@),
            Err(e) => (forall|d: SubscriptionData| !#[trigger] decodes(*row, d)) && if ids::uuid_of(
                row.subscription_id@,
            ) is None {
                e matches MCSError::MemoryError(m) && m@ == "invalid persisted identifier"@
            } else {
                e is JsonError
            },
        },
{
    let id: u128 = match parse_uuid(&row.subscription_id) {
        Some(id) => id,
        None => {
            return Err(memory("invalid persisted identifier"));
        },
    };
    let names: Vec<String> = match parse_json_list(&row.event_operations) {
        Ok(v) => v,
        Err(e) => {
            return Err(MCSError::JsonError(e));
        },
    };
    let event_operations: Vec<ChangeOperation> = match read_operations(&names) {
        Some(v) => v,
        None => {
            return Err(MCSError::JsonError("unknown operation".to_owned()));
        },
    };
    let entity_types: Vec<String> = match parse_json_list(&row.entity_types) {
        Ok(v) => v,
        Err(e) => {
            return Err(MCSError::JsonError(e));
        },
    };
    let ignored_origins: Vec<String> = match parse_json_list(&row.ignored_origins) {
        Ok(v) => v,
        Err(e) => {
            return Err(MCSError::JsonError(e));
        },
    };
    Ok(
        WebhookSubscription {
            subscription_id: id,
            endpoint: row.endpoint.clone(),
            event_operations,
            entity_types,
            ignored_origins,
            consumer_origin: row.consumer_origin.clone(),
            secret_ref: row.secret_ref.clone(),
            enabled: row.enabled,
        },
    )
}

/// The lists of a subscription as they are stored: its operations, its types
/// and the origins that it ignores.
pub fn encode_lists(s: &WebhookSubscription) -> (r: (String, String, String))
    ensures
        json::json_texts(r.0@) == Some(operation_names(s.event_operations@)),
        json::json_texts(r.1@) == Some(text::texts(s.entity_types@)),
        json::json_texts(r.2@) == Some(text::texts(s.ignored_origins@)),
{
    let names: Vec<String> = write_operations(&s.event_operations);
    (json_list(&names), json_list(&s.entity_types), json_list(&s.ignored_origins))
}

/// A row stores one subscription only.
pub proof fn law_a_row_stores_one_subscription(
    row: SubscriptionRow,
    a: SubscriptionData,
    b: SubscriptionData,
)
    requires
        decodes(row, a),
        decodes(row, b),
    ensures
        a == b,
{
    assert(a.event_operations =~= b.event_operations) by {
        let n = operation_names(a.event_operations);
        assert(n.len() == operation_names(b.event_operations).len());
        assert forall|i: int| 0 <= i < a.event_operations.len() implies #[trigger] a.event_operations[i]
            == b.event_operations[i] by {
            assert(n[i] == operation_name(a.event_operations[i]));
            assert(operation_names(b.event_operations)[i] == operation_name(b.event_operations[i]));
            lemma_operation_names_differ(a.event_operations[i], b.event_operations[i]);
        }
    }
    assert(a =~= b);
}

/// A subscription may be stored exactly where its endpoint, its consumer and its
/// secret can be read and are not too long, and the latter two hold no control
/// code.
pub proof fn law_which_subscriptions_are_valid(s: SubscriptionData)
    ensures
        s.valid() <==> {
            &&& text::trimmed(s.endpoint).len() > 0 && encode_utf8(s.endpoint).len() <= 2048
            &&& text::trimmed(s.consumer_origin).len() > 0 && encode_utf8(s.consumer_origin).len() <= 256
            &&& text::trimmed(s.secret_ref).len() > 0 && encode_utf8(s.secret_ref).len() <= 512
            &&& forall|i: int|
                0 <= i < s.consumer_origin.len() ==> !text::control(#[trigger] s.consumer_origin[i])
            &&& forall|i: int| 0 <= i < s.secret_ref.len() ==> !text::control(#[trigger] s.secret_ref[i])
        },
{
}

/// What was made earlier is older; of two that were made at one time, the one with
/// the lower identifier. A subscription is found by its identifier wherever it
/// stands.
pub proof fn law_the_oldest_comes_first(v: Seq<SubscriptionEntryData>, i: int, j: int, id: u128)
    requires
        in_order(v),
        0 <= i < j < v.len(),
    ensures
        v[i].created_at_us <= v[j].created_at_us,
        v[i].created_at_us == v[j].created_at_us ==> v[i].subscription.subscription_id
            < v[j].subscription.subscription_id,
        v[i].subscription.subscription_id != v[j].subscription.subscription_id,
        has_id(v, v[i].subscription.subscription_id) && has_id(v, v[j].subscription.subscription_id),
        has_id(v, id) <==> exists|k: int| 0 <= k < v.len() && (#[trigger] v[k]).subscription.subscription_id == id,
{
    assert(older(v[i], v[j]));
}

/// Every operation has its own stored name.
pub proof fn law_operations_have_their_own_names(a: ChangeOperation, b: ChangeOperation)
    requires
        operation_name(a) == operation_name(b),
    ensures
        a == b,
{
    reveal_strlit("create");
    reveal_strlit("update");
    reveal_strlit("delete");
    reveal_strlit("rename");
    assert("create"@[0] == 'c' && "update"@[0] == 'u' && "delete"@[0] == 'd' && "rename"@[0] == 'r');
}

/// Nothing of a subscription or of its entry goes unseen, and a list shows
/// every item in its place.
pub proof fn law_nothing_goes_unseen(
    a: WebhookSubscription,
    b: SubscriptionEntry,
    x: Seq<SubscriptionEntry>,
    y: Seq<WebhookSubscription>,
    z: Seq<ChangeOperation>,
    i: int,
)
    ensures
        a@.subscription_id == a.subscription_id,
        a@.endpoint == a.endpoint@,
        a@.event_operations == a.event_operations@,
        a@.entity_types == text::texts(a.entity_types@),
        a@.ignored_origins == text::texts(a.ignored_origins@),
        a@.consumer_origin == a.consumer_origin@,
        a@.secret_ref == a.secret_ref@,
        a@.enabled == a.enabled,
        b@.subscription == b.subscription@,
        b@.created_at_us == b.created_at_us,
        b@.updated_at_us == b.updated_at_us,
        entries_data(x).len() == x.len(),
        0 <= i < x.len() ==> entries_data(x)[i] == x[i]@,
        subscriptions_data(y).len() == y.len(),
        0 <= i < y.len() ==> subscriptions_data(y)[i] == y[i]@,
        operation_names(z).len() == z.len(),
        0 <= i < z.len() ==> operation_names(z)[i] == operation_name(z[i]),
{
}

} // verus!
