//! Principals that are made while the server runs, and the list of humans who
//! wait for approval.
use vstd::prelude::*;

use crate::errors::{memory, MCSError, Result};
use crate::text;
use crate::text::{copy_texts, same};

verus! {

/// How many humans may wait. The one that was seen longest ago makes room.
pub const WAITLIST_CAP: usize = 25;

/// A principal that is kept in the database rather than in the principals
/// file.
#[derive(Debug)]
pub struct RuntimePrincipal {
    pub iss: String,
    pub sub: String,
    pub name: String,
    pub label: Option<String>,
    pub scopes: Vec<String>,
    pub created_us: i64,
    pub updated_us: i64,
}

/// Someone who was refused and waits for approval.
#[derive(Debug)]
pub struct WaitlistEntry {
    pub iss: String,
    pub sub: String,
    pub name: String,
    pub first_seen_us: i64,
    pub last_seen_us: i64,
}

/// What a [`RuntimePrincipal`] holds.
#[verifier::ext_equal]
pub struct PrincipalData {
    pub iss: Seq<char>,
    pub sub: Seq<char>,
    pub name: Seq<char>,
    pub label: Option<Seq<char>>,
    pub scopes: Seq<Seq<char>>,
    pub created_us: i64,
    pub updated_us: i64,
}

/// What a [`WaitlistEntry`] holds.
#[verifier::ext_equal]
pub struct WaitData {
    pub iss: Seq<char>,
    pub sub: Seq<char>,
    pub name: Seq<char>,
    pub first_seen_us: i64,
    pub last_seen_us: i64,
}

impl View for RuntimePrincipal {
    type V = PrincipalData;

    open spec fn view(&self) -> PrincipalData {
        PrincipalData {
            iss: self.iss@,
            sub: self.sub@,
            name: self.name@,
            label: text::opt_text(self.label),
            scopes: text::texts(self.scopes@),
            created_us: self.created_us,
            updated_us: self.updated_us,
        }
    }
}

impl View for WaitlistEntry {
    type V = WaitData;

    open spec fn view(&self) -> WaitData {
        WaitData {
            iss: self.iss@,
            sub: self.sub@,
            name: self.name@,
            first_seen_us: self.first_seen_us,
            last_seen_us: self.last_seen_us,
        }
    }
}

impl Clone for RuntimePrincipal {
    fn clone(&self) -> (r: Self)
        ensures
            r@ == self@,
    {
        RuntimePrincipal {
            iss: self.iss.clone(),
            sub: self.sub.clone(),
            name: self.name.clone(),
            label: copy_opt(&self.label),
            scopes: copy_texts(&self.scopes),
            created_us: self.created_us,
            updated_us: self.updated_us,
        }
    }
}

impl Clone for WaitlistEntry {
    fn clone(&self) -> (r: Self)
        ensures
            r@ == self@,
    {
        WaitlistEntry {
            iss: self.iss.clone(),
            sub: self.sub.clone(),
            name: self.name.clone(),
            first_seen_us: self.first_seen_us,
            last_seen_us: self.last_seen_us,
        }
    }
}

fn copy_opt(s: &Option<String>) -> (r: Option<String>)
    ensures
        r == *s,
{
    match s {
        Some(t) => Some(t.clone()),
        None => None,
    }
}

/// What the principals hold.
pub open spec fn principals_data(v: Seq<RuntimePrincipal>) -> Seq<PrincipalData> {
    v.map_values(|p: RuntimePrincipal| p@)
}

/// What the waiting entries hold.
pub open spec fn waiting_data(v: Seq<WaitlistEntry>) -> Seq<WaitData> {
    v.map_values(|e: WaitlistEntry| e@)
}

/// The principal has the identity.
pub open spec fn is_principal(p: PrincipalData, iss: Seq<char>, sub: Seq<char>) -> bool {
    p.iss == iss && p.sub == sub
}

/// The entry has the identity.
pub open spec fn is_waiting(e: WaitData, iss: Seq<char>, sub: Seq<char>) -> bool {
    e.iss == iss && e.sub == sub
}

/// A principal in the list has the identity.
pub open spec fn holds_principal(v: Seq<PrincipalData>, iss: Seq<char>, sub: Seq<char>) -> bool {
    exists|i: int| 0 <= i < v.len() && is_principal(#[trigger] v[i], iss, sub)
}

/// An entry in the list has the identity.
pub open spec fn holds_waiting(v: Seq<WaitData>, iss: Seq<char>, sub: Seq<char>) -> bool {
    exists|i: int| 0 <= i < v.len() && is_waiting(#[trigger] v[i], iss, sub)
}

/// The items that meet the condition, in their order.
pub open spec fn kept<T>(v: Seq<T>, p: spec_fn(T) -> bool) -> Seq<T>
    decreases v.len(),
{
    if v.len() == 0 {
        v
    } else {
        let rest = kept(v.drop_last(), p);
        if p(v.last()) {
            rest.push(v.last())
        } else {
            rest
        }
    }
}

proof fn lemma_kept_push<T>(v: Seq<T>, x: T, p: spec_fn(T) -> bool)
    ensures
        kept(v.push(x), p) == (if p(x) {
            kept(v, p).push(x)
        } else {
            kept(v, p)
        }),
{
    assert(v.push(x).drop_last() =~= v);
}

/// Only items of the list are kept, and all of them meet the condition.
pub proof fn lemma_kept<T>(v: Seq<T>, p: spec_fn(T) -> bool)
    ensures
        kept(v, p).len() <= v.len(),
        forall|i: int|
            0 <= i < kept(v, p).len() ==> p(#[trigger] kept(v, p)[i]) && v.contains(kept(v, p)[i]),
        forall|i: int| 0 <= i < v.len() && p(#[trigger] v[i]) ==> kept(v, p).contains(v[i]),
    decreases v.len(),
{
    if v.len() > 0 {
        let front = v.drop_last();
        let rest = kept(front, p);
        let all = kept(v, p);
        lemma_kept(front, p);
        assert forall|i: int| 0 <= i < all.len() implies p(#[trigger] all[i]) && v.contains(all[i]) by {
            if i < rest.len() {
                assert(all[i] == rest[i]);
                let k = front.index_of(rest[i]);
                assert(v[k] == rest[i]);
            } else {
                assert(v[v.len() - 1] == all[i]);
            }
        }
        assert forall|i: int| 0 <= i < v.len() && p(#[trigger] v[i]) implies all.contains(v[i]) by {
            if i < front.len() {
                assert(front[i] == v[i]);
                let k = rest.index_of(v[i]);
                assert(all[k] == v[i]);
            } else {
                assert(all[all.len() - 1] == v[i]);
            }
        }
    }
}

fn drop_principal(all: &mut Vec<RuntimePrincipal>, iss: &str, sub: &str)
    ensures
        principals_data(final(all)@) == kept(principals_data(old(all)@), |x: PrincipalData| !is_principal(x, iss@, sub@)),
{
    let ghost start = principals_data(all@);
    let ghost p = |x: PrincipalData| !is_principal(x, iss@, sub@);
    let ghost mut k: int = 0;
    let mut i: usize = 0;
    assert(start.take(0) =~= Seq::<PrincipalData>::empty());
    while i < all.len()
        invariant
            i <= all@.len(),
            0 <= k <= start.len(),
            start.len() - k == all@.len() - i,
            p == (|x: PrincipalData| !is_principal(x, iss@, sub@)),
            principals_data(all@).take(i as int) == kept(start.take(k), p),
            principals_data(all@).skip(i as int) == start.skip(k),
        decreases all@.len() - i,
    {
        let ghost before = principals_data(all@);
        assert(before[i as int] == before.skip(i as int)[0]);
        assert(start.skip(k)[0] == start[k]);
        assert(start.take(k + 1) =~= start.take(k).push(start[k]));
        proof {
            lemma_kept_push(start.take(k), start[k], p);
        }
        if !(same(&all[i].iss, iss) && same(&all[i].sub, sub)) {
            assert(before.take(i + 1) =~= before.take(i as int).push(before[i as int]));
            assert(before.skip(i + 1) =~= before.skip(i as int).skip(1));
            i += 1;
        } else {
            all.remove(i);
            assert(principals_data(all@) =~= before.remove(i as int));
            assert(principals_data(all@).take(i as int) =~= before.take(i as int));
            assert(principals_data(all@).skip(i as int) =~= before.skip(i as int).skip(1));
        }
        assert(start.skip(k + 1) =~= start.skip(k).skip(1));
        proof {
            k = k + 1;
        }
    }
    assert(k == start.len());
    assert(start.take(k) =~= start);
    assert(principals_data(all@).take(i as int) =~= principals_data(all@));
}

fn drop_waiting(all: &mut Vec<WaitlistEntry>, iss: &str, sub: &str)
    ensures
        waiting_data(final(all)@) == kept(waiting_data(old(all)@), |x: WaitData| !is_waiting(x, iss@, sub@)),
{
    let ghost start = waiting_data(all@);
    let ghost p = |x: WaitData| !is_waiting(x, iss@, sub@);
    let ghost mut k: int = 0;
    let mut i: usize = 0;
    assert(start.take(0) =~= Seq::<WaitData>::empty());
    while i < all.len()
        invariant
            i <= all@.len(),
            0 <= k <= start.len(),
            start.len() - k == all@.len() - i,
            p == (|x: WaitData| !is_waiting(x, iss@, sub@)),
            waiting_data(all@).take(i as int) == kept(start.take(k), p),
            waiting_data(all@).skip(i as int) == start.skip(k),
        decreases all@.len() - i,
    {
        let ghost before = waiting_data(all@);
        assert(before[i as int] == before.skip(i as int)[0]);
        assert(start.skip(k)[0] == start[k]);
        assert(start.take(k + 1) =~= start.take(k).push(start[k]));
        proof {
            lemma_kept_push(start.take(k), start[k], p);
        }
        if !(same(&all[i].iss, iss) && same(&all[i].sub, sub)) {
            assert(before.take(i + 1) =~= before.take(i as int).push(before[i as int]));
            assert(before.skip(i + 1) =~= before.skip(i as int).skip(1));
            i += 1;
        } else {
            all.remove(i);
            assert(waiting_data(all@) =~= before.remove(i as int));
            assert(waiting_data(all@).take(i as int) =~= before.take(i as int));
            assert(waiting_data(all@).skip(i as int) =~= before.skip(i as int).skip(1));
        }
        assert(start.skip(k + 1) =~= start.skip(k).skip(1));
        proof {
            k = k + 1;
        }
    }
    assert(k == start.len());
    assert(start.take(k) =~= start);
    assert(waiting_data(all@).take(i as int) =~= waiting_data(all@));
}

fn drop_expired(all: &mut Vec<WaitlistEntry>, limit: i64)
    ensures
        waiting_data(final(all)@) == kept(waiting_data(old(all)@), |x: WaitData| x.first_seen_us >= limit),
{
    let ghost start = waiting_data(all@);
    let ghost p = |x: WaitData| x.first_seen_us >= limit;
    let ghost mut k: int = 0;
    let mut i: usize = 0;
    assert(start.take(0) =~= Seq::<WaitData>::empty());
    while i < all.len()
        invariant
            i <= all@.len(),
            0 <= k <= start.len(),
            start.len() - k == all@.len() - i,
            p == (|x: WaitData| x.first_seen_us >= limit),
            waiting_data(all@).take(i as int) == kept(start.take(k), p),
            waiting_data(all@).skip(i as int) == start.skip(k),
        decreases all@.len() - i,
    {
        let ghost before = waiting_data(all@);
        assert(before[i as int] == before.skip(i as int)[0]);
        assert(start.skip(k)[0] == start[k]);
        assert(start.take(k + 1) =~= start.take(k).push(start[k]));
        proof {
            lemma_kept_push(start.take(k), start[k], p);
        }
        if all[i].first_seen_us >= limit {
            assert(before.take(i + 1) =~= before.take(i as int).push(before[i as int]));
            assert(before.skip(i + 1) =~= before.skip(i as int).skip(1));
            i += 1;
        } else {
            all.remove(i);
            assert(waiting_data(all@) =~= before.remove(i as int));
            assert(waiting_data(all@).take(i as int) =~= before.take(i as int));
            assert(waiting_data(all@).skip(i as int) =~= before.skip(i as int).skip(1));
        }
        assert(start.skip(k + 1) =~= start.skip(k).skip(1));
        proof {
            k = k + 1;
        }
    }
    assert(k == start.len());
    assert(start.take(k) =~= start);
    assert(waiting_data(all@).take(i as int) =~= waiting_data(all@));
}

/// The entry was seen longer ago than the other.
pub open spec fn staler(a: WaitData, b: WaitData) -> bool {
    ||| a.last_seen_us < b.last_seen_us
    ||| a.last_seen_us == b.last_seen_us && a.first_seen_us < b.first_seen_us
}

/// The entry at `i` is the one that makes room: the one seen longest ago, and
/// of several the first.
pub open spec fn is_stalest(v: Seq<WaitData>, i: int) -> bool {
    &&& 0 <= i < v.len()
    &&& forall|j: int| 0 <= j < i ==> staler(v[i], #[trigger] v[j])
    &&& forall|j: int| i < j < v.len() ==> !staler(#[trigger] v[j], v[i])
}

/// The list cut back to its size.
pub open spec fn capped(v: Seq<WaitData>) -> Seq<WaitData>
    decreases v.len(),
{
    if v.len() <= WAITLIST_CAP {
        v
    } else if exists|i: int| is_stalest(v, i) {
        let i = choose|i: int| is_stalest(v, i);
        capped(v.remove(i))
    } else {
        v
    }
}

/// The time from which on an entry is not expired.
pub open spec fn expiry_limit(now: int, ttl_us: int) -> i64 {
    if now - ttl_us < i64::MIN {
        i64::MIN
    } else if now - ttl_us > i64::MAX {
        i64::MAX
    } else {
        (now - ttl_us) as i64
    }
}

/// The list once expired entries have left it, and then those for whom there
/// is no room.
pub open spec fn evicted(v: Seq<WaitData>, now: int, ttl_us: int) -> Seq<WaitData> {
    let limit = expiry_limit(now, ttl_us);
    capped(kept(v, |x: WaitData| x.first_seen_us >= limit))
}

/// The list once someone was seen. Who was seen before keeps the time of the
/// first sighting.
pub open spec fn sighted(v: Seq<WaitData>, iss: Seq<char>, sub: Seq<char>, name: Seq<char>, now: i64) -> Seq<
    WaitData,
> {
    if holds_waiting(v, iss, sub) {
        v.map_values(
            |e: WaitData|
                if is_waiting(e, iss, sub) {
                    WaitData { name, last_seen_us: now, ..e }
                } else {
                    e
                },
        )
    } else {
        v.push(WaitData { iss, sub, name, first_seen_us: now, last_seen_us: now })
    }
}

/// Two places cannot both be that of the stalest entry.
proof fn lemma_stalest_unique(v: Seq<WaitData>, a: int, b: int)
    requires
        is_stalest(v, a),
        is_stalest(v, b),
    ensures
        a == b,
{
    if a < b {
        assert(staler(v[b], v[a]));
        assert(!staler(v[b], v[a]));
    }
    if b < a {
        assert(staler(v[a], v[b]));
        assert(!staler(v[a], v[b]));
    }
}

fn is_staler(a: &WaitlistEntry, b: &WaitlistEntry) -> (r: bool)
    ensures
        r == staler(a@, b@),
{
    a.last_seen_us < b.last_seen_us || (a.last_seen_us == b.last_seen_us && a.first_seen_us
        < b.first_seen_us)
}

fn stalest(v: &Vec<WaitlistEntry>) -> (r: usize)
    requires
        v@.len() > 0,
    ensures
        is_stalest(waiting_data(v@), r as int),
{
    let ghost d = waiting_data(v@);
    let mut best: usize = 0;
    let mut i: usize = 1;
    while i < v.len()
        invariant
            best < i <= v@.len(),
            d == waiting_data(v@),
            forall|j: int| 0 <= j < best ==> staler(d[best as int], #[trigger] d[j]),
            forall|j: int| best < j < i ==> !staler(#[trigger] d[j], d[best as int]),
        decreases v@.len() - i,
    {
        if is_staler(&v[i], &v[best]) {
            assert(staler(d[i as int], d[best as int]));
            assert forall|j: int| 0 <= j < i implies staler(d[i as int], #[trigger] d[j]) by {
                if j < best {
                    assert(staler(d[best as int], d[j]));
                } else if j > best {
                    assert(!staler(d[j], d[best as int]));
                }
            }
            best = i;
        }
        i += 1;
    }
    best
}

fn cap(v: &mut Vec<WaitlistEntry>)
    ensures
        waiting_data(final(v)@) == capped(waiting_data(old(v)@)),
        final(v)@.len() <= WAITLIST_CAP,
{
    let ghost start = waiting_data(v@);
    while v.len() > WAITLIST_CAP
        invariant
            capped(waiting_data(v@)) == capped(start),
        decreases v@.len(),
    {
        let ghost before = waiting_data(v@);
        let i: usize = stalest(v);
        proof {
            let k = choose|k: int| is_stalest(before, k);
            assert(is_stalest(before, k));
            lemma_stalest_unique(before, k, i as int);
        }
        v.remove(i);
        assert(waiting_data(v@) =~= before.remove(i as int));
    }
}

/// The principals that were made while the server ran, and who waits.
#[derive(Debug)]
pub struct PrincipalsStore {
    pub principals: Vec<RuntimePrincipal>,
    pub waiting: Vec<WaitlistEntry>,
}

/// What a [`PrincipalsStore`] holds.
#[verifier::ext_equal]
pub struct PrincipalsModel {
    pub principals: Seq<PrincipalData>,
    pub waiting: Seq<WaitData>,
}

impl View for PrincipalsStore {
    type V = PrincipalsModel;

    open spec fn view(&self) -> PrincipalsModel {
        PrincipalsModel {
            principals: principals_data(self.principals@),
            waiting: waiting_data(self.waiting@),
        }
    }
}

fn find_principal(v: &Vec<RuntimePrincipal>, iss: &str, sub: &str) -> (r: Option<usize>)
    ensures
        match r {
            Some(i) => i < v@.len() && is_principal(v@[i as int]@, iss@, sub@) && forall|j: int|
                0 <= j < i ==> !is_principal(#[trigger] principals_data(v@)[j], iss@, sub@),
            None => !holds_principal(principals_data(v@), iss@, sub@),
        },
{
    let mut i: usize = 0;
    while i < v.len()
        invariant
            i <= v@.len(),
            forall|j: int| 0 <= j < i ==> !is_principal(#[trigger] principals_data(v@)[j], iss@, sub@),
        decreases v@.len() - i,
    {
        if same(&v[i].iss, iss) && same(&v[i].sub, sub) {
            return Some(i);
        }
        i += 1;
    }
    None
}

fn find_waiting(v: &Vec<WaitlistEntry>, iss: &str, sub: &str) -> (r: Option<usize>)
    ensures
        match r {
            Some(i) => i < v@.len() && is_waiting(v@[i as int]@, iss@, sub@) && forall|j: int|
                0 <= j < i ==> !is_waiting(#[trigger] waiting_data(v@)[j], iss@, sub@),
            None => !holds_waiting(waiting_data(v@), iss@, sub@),
        },
{
    let mut i: usize = 0;
    while i < v.len()
        invariant
            i <= v@.len(),
            forall|j: int| 0 <= j < i ==> !is_waiting(#[trigger] waiting_data(v@)[j], iss@, sub@),
        decreases v@.len() - i,
    {
        if same(&v[i].iss, iss) && same(&v[i].sub, sub) {
            return Some(i);
        }
        i += 1;
    }
    None
}

/// The first item with the identity stands at `i`.
pub open spec fn first_principal(v: Seq<PrincipalData>, iss: Seq<char>, sub: Seq<char>, i: int) -> bool {
    &&& 0 <= i < v.len()
    &&& is_principal(v[i], iss, sub)
    &&& forall|j: int| 0 <= j < i ==> !is_principal(#[trigger] v[j], iss, sub)
}

/// The first item with the identity stands at `i`.
pub open spec fn first_waiting(v: Seq<WaitData>, iss: Seq<char>, sub: Seq<char>, i: int) -> bool {
    &&& 0 <= i < v.len()
    &&& is_waiting(v[i], iss, sub)
    &&& forall|j: int| 0 <= j < i ==> !is_waiting(#[trigger] v[j], iss, sub)
}

/// The error says that the identity is registered.
pub open spec fn is_taken(e: MCSError) -> bool {
    e matches MCSError::MemoryError(m) && m@
        == "principals store: UNIQUE constraint failed: runtime_principal.iss, runtime_principal.sub"@
}

fn taken() -> (r: MCSError)
    ensures
        is_taken(r),
{
    memory(
        "principals store: UNIQUE constraint failed: runtime_principal.iss, runtime_principal.sub",
    )
}

impl PrincipalsStore {
    /// Nobody.
    pub fn new() -> (r: Self)
        ensures
            r@.principals == Seq::<PrincipalData>::empty(),
            r@.waiting == Seq::<WaitData>::empty(),
    {
        let r: PrincipalsStore = PrincipalsStore { principals: Vec::new(), waiting: Vec::new() };
        assert(r@.principals =~= Seq::<PrincipalData>::empty());
        assert(r@.waiting =~= Seq::<WaitData>::empty());
        r
    }

    /// Adds a principal. It fails where the identity is taken.
    pub fn create(
        &mut self,
        iss: &str,
        sub: &str,
        name: &str,
        label: Option<String>,
        scopes: &Vec<String>,
        now: i64,
    ) -> (r: Result<()>)
        ensures
            r is Ok <==> !holds_principal(old(self)@.principals, iss@, sub@),
            r matches Err(e) ==> final(self)@ == old(self)@ && is_taken(e),
            r is Ok ==> final(self)@ == (PrincipalsModel {
                principals: old(self)@.principals.push(
                    PrincipalData {
                        iss: iss@,
                        sub: sub@,
                        name: name@,
                        label: text::opt_text(label),
                        scopes: text::texts(scopes@),
                        created_us: now,
                        updated_us: now,
                    },
                ),
                ..old(self)@
            }),
    {
        if find_principal(&self.principals, iss, sub).is_some() {
            assert(holds_principal(old(self)@.principals, iss@, sub@)) by {
                let i = choose|i: int|
                    0 <= i < self.principals@.len() && is_principal(
                        (#[trigger] self.principals@[i])@,
                        iss@,
                        sub@,
                    );
                assert(is_principal(old(self)@.principals[i], iss@, sub@));
            }
            return Err(taken());
        }
        let ghost before = principals_data(self.principals@);
        let p: RuntimePrincipal = RuntimePrincipal {
            iss: iss.to_owned(),
            sub: sub.to_owned(),
            name: name.to_owned(),
            label,
            scopes: copy_texts(scopes),
            created_us: now,
            updated_us: now,
        };
        let ghost d = p@;
        self.principals.push(p);
        assert(principals_data(self.principals@) =~= before.push(d));
        Ok(())
    }

    /// Gives a principal another name, label and scopes. Returns whether there
    /// was one.
    pub fn update(
        &mut self,
        iss: &str,
        sub: &str,
        name: &str,
        label: &Option<String>,
        scopes: &Vec<String>,
        now: i64,
    ) -> (r: bool)
        ensures
            r == holds_principal(old(self)@.principals, iss@, sub@),
            final(self)@ == (PrincipalsModel {
                principals: old(self)@.principals.map_values(
                    |p: PrincipalData|
                        if is_principal(p, iss@, sub@) {
                            PrincipalData {
                                name: name@,
                                label: text::opt_text(*label),
                                scopes: text::texts(scopes@),
                                updated_us: now,
                                ..p
                            }
                        } else {
                            p
                        },
                ),
                ..old(self)@
            }),
    {
        let ghost start = principals_data(self.principals@);
        let ghost f = |p: PrincipalData|
            if is_principal(p, iss@, sub@) {
                PrincipalData {
                    name: name@,
                    label: text::opt_text(*label),
                    scopes: text::texts(scopes@),
                    updated_us: now,
                    ..p
                }
            } else {
                p
            };
        let mut found: bool = false;
        let mut i: usize = 0;
        while i < self.principals.len()
            invariant
                i <= self.principals@.len(),
                start.len() == self.principals@.len(),
                self.waiting == old(self).waiting,
                f == (|p: PrincipalData|
                    if is_principal(p, iss@, sub@) {
                        PrincipalData {
                            name: name@,
                            label: text::opt_text(*label),
                            scopes: text::texts(scopes@),
                            updated_us: now,
                            ..p
                        }
                    } else {
                        p
                    }),
                found == exists|j: int| 0 <= j < i && is_principal(#[trigger] start[j], iss@, sub@),
                forall|j: int| 0 <= j < i ==> (#[trigger] self.principals@[j])@ == f(start[j]),
                forall|j: int| i <= j < start.len() ==> (#[trigger] self.principals@[j])@ == start[j],
            decreases self.principals@.len() - i,
        {
            assert(self.principals@[i as int]@ == start[i as int]);
            if same(&self.principals[i].iss, iss) && same(&self.principals[i].sub, sub) {
                self.principals[i].name = name.to_owned();
                self.principals[i].label = copy_opt(label);
                self.principals[i].scopes = copy_texts(scopes);
                self.principals[i].updated_us = now;
                found = true;
                assert(self.principals@[i as int]@ =~= f(start[i as int]));
            }
            i += 1;
        }
        assert(principals_data(self.principals@) =~= start.map_values(f));
        found
    }

    /// Removes a principal. Returns whether there was one.
    pub fn delete(&mut self, iss: &str, sub: &str) -> (r: bool)
        ensures
            r == holds_principal(old(self)@.principals, iss@, sub@),
            final(self)@ == (PrincipalsModel {
                principals: kept(
                    old(self)@.principals,
                    |x: PrincipalData| !is_principal(x, iss@, sub@),
                ),
                ..old(self)@
            }),
    {
        let found: bool = self.get(iss, sub).is_some();
        drop_principal(&mut self.principals, iss, sub);
        found
    }

    /// The principal with the identity.
    pub fn get(&self, iss: &str, sub: &str) -> (r: Option<RuntimePrincipal>)
        ensures
            match r {
                Some(p) => exists|i: int|
                    #[trigger] first_principal(self@.principals, iss@, sub@, i)
                        && self@.principals[i] == p@,
                None => !holds_principal(self@.principals, iss@, sub@),
            },
            r is Some <==> holds_principal(self@.principals, iss@, sub@),
    {
        match find_principal(&self.principals, iss, sub) {
            Some(i) => {
                assert(is_principal(self@.principals[i as int], iss@, sub@));
                assert(first_principal(self@.principals, iss@, sub@, i as int));
                Some(self.principals[i].clone())
            },
            None => None,
        }
    }

    /// Every principal, in the order in which they were made.
    pub fn list(&self) -> (r: Vec<RuntimePrincipal>)
        ensures
            principals_data(r@) == self@.principals,
    {
        let mut out: Vec<RuntimePrincipal> = Vec::new();
        let mut i: usize = 0;
        assert(principals_data(out@) =~= self@.principals.take(0));
        while i < self.principals.len()
            invariant
                i <= self.principals@.len(),
                principals_data(out@) == self@.principals.take(i as int),
            decreases self.principals@.len() - i,
        {
            let ghost done = principals_data(out@);
            let p: RuntimePrincipal = self.principals[i].clone();
            let ghost d = p@;
            out.push(p);
            assert(principals_data(out@) =~= done.push(d));
            assert(principals_data(out@) =~= self@.principals.take(i + 1));
            i += 1;
        }
        assert(self@.principals.take(self@.principals.len() as int) =~= self@.principals);
        out
    }

    /// Puts someone who was refused on the list, or notes that they were seen
    /// again; then clears the list of what has expired and of what exceeds its
    /// size.
    pub fn record_waitlist(&mut self, iss: &str, sub: &str, name: &str, ttl_us: i64, now: i64)
        ensures
            final(self)@ == (PrincipalsModel {
                waiting: evicted(
                    sighted(old(self)@.waiting, iss@, sub@, name@, now),
                    now as int,
                    ttl_us as int,
                ),
                ..old(self)@
            }),
            final(self)@.waiting.len() <= WAITLIST_CAP,
    {
        let ghost start = waiting_data(self.waiting@);
        let ghost f = |e: WaitData|
            if is_waiting(e, iss@, sub@) {
                WaitData { name: name@, last_seen_us: now, ..e }
            } else {
                e
            };
        let mut found: bool = false;
        let mut i: usize = 0;
        while i < self.waiting.len()
            invariant
                i <= self.waiting@.len(),
                start.len() == self.waiting@.len(),
                self.principals == old(self).principals,
                f == (|e: WaitData|
                    if is_waiting(e, iss@, sub@) {
                        WaitData { name: name@, last_seen_us: now, ..e }
                    } else {
                        e
                    }),
                found == exists|j: int| 0 <= j < i && is_waiting(#[trigger] start[j], iss@, sub@),
                forall|j: int| 0 <= j < i ==> (#[trigger] self.waiting@[j])@ == f(start[j]),
                forall|j: int| i <= j < start.len() ==> (#[trigger] self.waiting@[j])@ == start[j],
            decreases self.waiting@.len() - i,
        {
            assert(self.waiting@[i as int]@ == start[i as int]);
            if same(&self.waiting[i].iss, iss) && same(&self.waiting[i].sub, sub) {
                self.waiting[i].name = name.to_owned();
                self.waiting[i].last_seen_us = now;
                found = true;
                assert(self.waiting@[i as int]@ =~= f(start[i as int]));
            }
            i += 1;
        }
        if found {
            assert(waiting_data(self.waiting@) =~= sighted(start, iss@, sub@, name@, now));
        } else {
            assert(waiting_data(self.waiting@) =~= start);
            let e: WaitlistEntry = WaitlistEntry {
                iss: iss.to_owned(),
                sub: sub.to_owned(),
                name: name.to_owned(),
                first_seen_us: now,
                last_seen_us: now,
            };
            let ghost d = e@;
            self.waiting.push(e);
            assert(waiting_data(self.waiting@) =~= start.push(d));
        }
        self.evict(ttl_us, now);
    }

    fn evict(&mut self, ttl_us: i64, now: i64)
        ensures
            final(self)@ == (PrincipalsModel {
                waiting: evicted(old(self)@.waiting, now as int, ttl_us as int),
                ..old(self)@
            }),
            final(self)@.waiting.len() <= WAITLIST_CAP,
    {
        let wide: i128 = now as i128 - ttl_us as i128;
        let limit: i64 = if wide < i64::MIN as i128 {
            i64::MIN
        } else if wide > i64::MAX as i128 {
            i64::MAX
        } else {
            wide as i64
        };
        drop_expired(&mut self.waiting, limit);
        cap(&mut self.waiting);
    }

    /// The waiting entry with the identity.
    pub fn waitlist_get(&self, iss: &str, sub: &str) -> (r: Option<WaitlistEntry>)
        ensures
            match r {
                Some(e) => exists|i: int|
                    #[trigger] first_waiting(self@.waiting, iss@, sub@, i) && self@.waiting[i] == e@,
                None => !holds_waiting(self@.waiting, iss@, sub@),
            },
            r is Some <==> holds_waiting(self@.waiting, iss@, sub@),
    {
        match find_waiting(&self.waiting, iss, sub) {
            Some(i) => {
                assert(is_waiting(self@.waiting[i as int], iss@, sub@));
                assert(first_waiting(self@.waiting, iss@, sub@, i as int));
                Some(self.waiting[i].clone())
            },
            None => None,
        }
    }

    /// Everyone who waits, in the order in which they came.
    pub fn waitlist(&self) -> (r: Vec<WaitlistEntry>)
        ensures
            waiting_data(r@) == self@.waiting,
    {
        let mut out: Vec<WaitlistEntry> = Vec::new();
        let mut i: usize = 0;
        assert(waiting_data(out@) =~= self@.waiting.take(0));
        while i < self.waiting.len()
            invariant
                i <= self.waiting@.len(),
                waiting_data(out@) == self@.waiting.take(i as int),
            decreases self.waiting@.len() - i,
        {
            let ghost done = waiting_data(out@);
            let e: WaitlistEntry = self.waiting[i].clone();
            let ghost d = e@;
            out.push(e);
            assert(waiting_data(out@) =~= done.push(d));
            assert(waiting_data(out@) =~= self@.waiting.take(i + 1));
            i += 1;
        }
        assert(self@.waiting.take(self@.waiting.len() as int) =~= self@.waiting);
        out
    }

    /// Takes someone off the list without making a principal. Returns whether
    /// they were on it.
    pub fn dismiss_waitlist(&mut self, iss: &str, sub: &str) -> (r: bool)
        ensures
            r == holds_waiting(old(self)@.waiting, iss@, sub@),
            final(self)@ == (PrincipalsModel {
                waiting: kept(old(self)@.waiting, |x: WaitData| !is_waiting(x, iss@, sub@)),
                ..old(self)@
            }),
    {
        let found: bool = self.waitlist_get(iss, sub).is_some();
        drop_waiting(&mut self.waiting, iss, sub);
        found
    }

    /// Makes a principal of someone who waits, under the name they were seen
    /// with; nothing where they do not wait. It fails, and changes nothing,
    /// where the identity is taken.
    pub fn approve(&mut self, iss: &str, sub: &str, scopes: &Vec<String>, now: i64) -> (r: Result<
        Option<RuntimePrincipal>,
    >)
        ensures
            match r {
                Ok(Some(p)) => {
                    &&& exists|i: int|
                        #[trigger] first_waiting(old(self)@.waiting, iss@, sub@, i) && p.name@
                            == old(self)@.waiting[i].name
                    &&& p@ == (PrincipalData {
                        iss: iss@,
                        sub: sub@,
                        name: p.name@,
                        label: None,
                        scopes: text::texts(scopes@),
                        created_us: now,
                        updated_us: now,
                    })
                    &&& !holds_principal(old(self)@.principals, iss@, sub@)
                    &&& final(self)@ == (PrincipalsModel {
                        principals: old(self)@.principals.push(p@),
                        waiting: kept(old(self)@.waiting, |x: WaitData| !is_waiting(x, iss@, sub@)),
                    })
                },
                Ok(None) => !holds_waiting(old(self)@.waiting, iss@, sub@) && final(self)@ == old(self)@,
                Err(e) => holds_waiting(old(self)@.waiting, iss@, sub@) && holds_principal(
                    old(self)@.principals,
                    iss@,
                    sub@,
                ) && final(self)@ == old(self)@ && is_taken(e),
            },
    {
        let entry: WaitlistEntry = match self.waitlist_get(iss, sub) {
            Some(e) => e,
            None => {
                return Ok(None);
            },
        };
        match self.create(iss, sub, &entry.name, None, scopes, now) {
            Ok(_) => {},
            Err(e) => {
                return Err(e);
            },
        }
        drop_waiting(&mut self.waiting, iss, sub);
        Ok(
            Some(
                RuntimePrincipal {
                    iss: iss.to_owned(),
                    sub: sub.to_owned(),
                    name: entry.name,
                    label: None,
                    scopes: copy_texts(scopes),
                    created_us: now,
                    updated_us: now,
                },
            ),
        )
    }
}

// ---------------------------------------------------------------------------
// Laws
// ---------------------------------------------------------------------------

/// Some entry is the one that makes room.
proof fn lemma_has_stalest(v: Seq<WaitData>) -> (r: int)
    requires
        v.len() > 0,
    ensures
        is_stalest(v, r),
    decreases v.len(),
{
    if v.len() == 1 {
        0
    } else {
        let front = v.drop_last();
        let k = lemma_has_stalest(front);
        let last = v.len() - 1;
        if staler(v[last], v[k]) {
            assert forall|j: int| 0 <= j < last implies staler(v[last], #[trigger] v[j]) by {
                if j < k {
                    assert(staler(front[k], front[j]));
                } else if j > k {
                    assert(!staler(front[j], front[k]));
                }
            }
            last
        } else {
            assert forall|j: int| 0 <= j < k implies staler(v[k], #[trigger] v[j]) by {
                assert(staler(front[k], front[j]));
            }
            assert forall|j: int| k < j < v.len() implies !staler(#[trigger] v[j], v[k]) by {
                if j < last {
                    assert(!staler(front[j], front[k]));
                }
            }
            k
        }
    }
}

/// However many were refused, the list never outgrows its size.
pub proof fn law_the_waitlist_is_bounded(v: Seq<WaitData>, now: int, ttl_us: int)
    ensures
        evicted(v, now, ttl_us).len() <= WAITLIST_CAP,
{
    let limit = expiry_limit(now, ttl_us);
    lemma_capped(kept(v, |x: WaitData| x.first_seen_us >= limit));
}

/// Room is made by those who were seen longest ago: nobody who leaves for want
/// of room was seen later than anybody who stays. No more of them leave than
/// the size of the list demands.
pub proof fn law_those_seen_longest_ago_make_room(v: Seq<WaitData>, now: int, ttl_us: int, gone: WaitData)
    ensures
        ({
            let fresh = kept(v, |x: WaitData| x.first_seen_us >= expiry_limit(now, ttl_us));
            let left = evicted(v, now, ttl_us);
            &&& left.len() == if fresh.len() <= WAITLIST_CAP {
                fresh.len() as int
            } else {
                WAITLIST_CAP as int
            }
            &&& fresh.len() <= WAITLIST_CAP ==> left == fresh
            &&& fresh.contains(gone) && !left.contains(gone) ==> forall|i: int|
                0 <= i < left.len() ==> gone.last_seen_us <= (#[trigger] left[i]).last_seen_us && !staler(
                    left[i],
                    gone,
                )
        }),
{
    let limit = expiry_limit(now, ttl_us);
    let p = |x: WaitData| x.first_seen_us >= limit;
    assert(p =~= (|x: WaitData| x.first_seen_us >= expiry_limit(now, ttl_us)));
    let fresh = kept(v, p);
    lemma_capped(fresh);
    if fresh.contains(gone) && !capped(fresh).contains(gone) {
        lemma_capped_keeps_the_latest(fresh, gone);
    }
}

proof fn lemma_capped_keeps_the_latest(v: Seq<WaitData>, gone: WaitData)
    requires
        v.contains(gone),
        !capped(v).contains(gone),
    ensures
        forall|i: int| 0 <= i < capped(v).len() ==> !staler(#[trigger] capped(v)[i], gone),
    decreases v.len(),
{
    if v.len() > WAITLIST_CAP {
        let w = lemma_has_stalest(v);
        let k = choose|k: int| is_stalest(v, k);
        assert(is_stalest(v, k));
        let rest = v.remove(k);
        let n = v.index_of(gone);
        if rest.contains(gone) {
            lemma_capped_keeps_the_latest(rest, gone);
        } else {
            assert(n == k) by {
                if n < k {
                    assert(rest[n] == v[n]);
                } else if n > k {
                    assert(rest[n - 1] == v[n]);
                }
            }
            lemma_capped(v);
            assert forall|i: int| 0 <= i < capped(v).len() implies !staler(
                #[trigger] capped(v)[i],
                gone,
            ) by {
                let j = v.index_of(capped(v)[i]);
                assert(v[j] == capped(v)[i]);
                if j < k {
                    assert(staler(v[k], v[j]));
                } else if j > k {
                    assert(!staler(v[j], v[k]));
                } else {
                    assert(capped(v).contains(gone));
                }
            }
        }
    } else {
        assert(capped(v) == v);
    }
}

proof fn lemma_capped(v: Seq<WaitData>)
    ensures
        capped(v).len() == if v.len() <= WAITLIST_CAP {
            v.len() as int
        } else {
            WAITLIST_CAP as int
        },
        capped(v).len() <= WAITLIST_CAP,
        forall|i: int| 0 <= i < capped(v).len() ==> v.contains(#[trigger] capped(v)[i]),
    decreases v.len(),
{
    if v.len() > WAITLIST_CAP {
        let w = lemma_has_stalest(v);
        let k = choose|k: int| is_stalest(v, k);
        assert(is_stalest(v, k));
        let rest = v.remove(k);
        lemma_capped(rest);
        assert forall|i: int| 0 <= i < capped(v).len() implies v.contains(#[trigger] capped(v)[i]) by {
            let n = rest.index_of(capped(v)[i]);
            assert(rest[n] == capped(v)[i]);
            if n < k {
                assert(v[n] == rest[n]);
            } else {
                assert(v[n + 1] == rest[n]);
            }
        }
    } else {
        assert forall|i: int| 0 <= i < capped(v).len() implies v.contains(#[trigger] capped(v)[i]) by {
            assert(v[i] == capped(v)[i]);
        }
    }
}

/// Nobody waits longer than the given time after they were first seen, however
/// often they come back.
pub proof fn law_waiting_ends_after_its_time(v: Seq<WaitData>, now: int, ttl_us: int)
    requires
        i64::MIN <= now - ttl_us <= i64::MAX,
    ensures
        forall|i: int|
            0 <= i < evicted(v, now, ttl_us).len() ==> (#[trigger] evicted(v, now, ttl_us)[i]).first_seen_us
                >= now - ttl_us,
{
    let limit = expiry_limit(now, ttl_us);
    let p = |x: WaitData| x.first_seen_us >= limit;
    let fresh = kept(v, p);
    lemma_kept(v, p);
    lemma_capped(fresh);
    assert forall|i: int| 0 <= i < evicted(v, now, ttl_us).len() implies (#[trigger] evicted(
        v,
        now,
        ttl_us,
    )[i]).first_seen_us >= now - ttl_us by {
        let n = fresh.index_of(evicted(v, now, ttl_us)[i]);
        assert(p(fresh[n]));
    }
}

/// Coming back does not move the time at which someone was first seen.
pub proof fn law_a_return_keeps_the_first_sighting(
    v: Seq<WaitData>,
    iss: Seq<char>,
    sub: Seq<char>,
    name: Seq<char>,
    now: i64,
    i: int,
)
    requires
        0 <= i < v.len(),
        is_waiting(v[i], iss, sub),
    ensures
        sighted(v, iss, sub, name, now).len() == v.len(),
        sighted(v, iss, sub, name, now)[i] == (WaitData { name, last_seen_us: now, ..v[i] }),
{
}

/// Someone who was approved no longer waits.
pub proof fn law_the_approved_no_longer_wait(v: Seq<WaitData>, iss: Seq<char>, sub: Seq<char>)
    ensures
        !holds_waiting(kept(v, |x: WaitData| !is_waiting(x, iss, sub)), iss, sub),
{
    lemma_kept(v, |x: WaitData| !is_waiting(x, iss, sub));
}

/// Each item is kept or dropped for itself: what is kept of two lists, one behind
/// the other, is what is kept of the one and then what is kept of the other.
pub proof fn law_each_item_is_kept_for_itself<T>(a: Seq<T>, b: Seq<T>, p: spec_fn(T) -> bool, x: T)
    ensures
        kept(a + b, p) == kept(a, p) + kept(b, p),
        p(x) ==> kept(seq![x], p) == seq![x],
        !p(x) ==> kept(seq![x], p) == Seq::<T>::empty(),
    decreases b.len(),
{
    let one = seq![x];
    assert(one.drop_last() =~= Seq::<T>::empty());
    assert(one.last() == x);
    assert(kept(one.drop_last(), p) =~= Seq::<T>::empty());
    assert(Seq::<T>::empty().push(x) =~= one);
    if b.len() == 0 {
        assert(a + b =~= a);
        assert(kept(b, p) =~= Seq::<T>::empty());
        assert(kept(a, p) + kept(b, p) =~= kept(a, p));
    } else {
        law_each_item_is_kept_for_itself(a, b.drop_last(), p, x);
        assert((a + b).drop_last() =~= a + b.drop_last());
        assert((a + b).last() == b.last());
        assert(kept(a + b, p) =~= kept(a, p) + kept(b, p));
    }
}

/// Whoever is on a list is found there, wherever they stand.
pub proof fn law_whoever_is_listed_is_found(v: Seq<PrincipalData>, w: Seq<WaitData>, k: int)
    requires
        0 <= k < v.len(),
        0 <= k < w.len(),
    ensures
        holds_principal(v, v[k].iss, v[k].sub),
        exists|i: int| 0 <= i <= k && #[trigger] first_principal(v, v[k].iss, v[k].sub, i) && v[i].iss == v[k].iss
            && v[i].sub == v[k].sub,
        holds_waiting(w, w[k].iss, w[k].sub),
        exists|i: int| 0 <= i <= k && #[trigger] first_waiting(w, w[k].iss, w[k].sub, i) && w[i].iss == w[k].iss
            && w[i].sub == w[k].sub,
    decreases k,
{
    assert(is_principal(v[k], v[k].iss, v[k].sub));
    assert(is_waiting(w[k], w[k].iss, w[k].sub));
    lemma_first_principal(v, v[k].iss, v[k].sub, k);
    lemma_first_waiting(w, w[k].iss, w[k].sub, k);
}

proof fn lemma_first_principal(v: Seq<PrincipalData>, iss: Seq<char>, sub: Seq<char>, k: int)
    requires
        0 <= k < v.len(),
        v[k].iss == iss && v[k].sub == sub,
    ensures
        exists|i: int| 0 <= i <= k && #[trigger] first_principal(v, iss, sub, i) && v[i].iss == iss && v[i].sub
            == sub,
    decreases k,
{
    if exists|i: int| 0 <= i < k && is_principal(#[trigger] v[i], iss, sub) {
        let i = choose|i: int| 0 <= i < k && is_principal(#[trigger] v[i], iss, sub);
        lemma_first_principal(v, iss, sub, i);
    } else {
        assert(first_principal(v, iss, sub, k));
    }
}

proof fn lemma_first_waiting(v: Seq<WaitData>, iss: Seq<char>, sub: Seq<char>, k: int)
    requires
        0 <= k < v.len(),
        v[k].iss == iss && v[k].sub == sub,
    ensures
        exists|i: int| 0 <= i <= k && #[trigger] first_waiting(v, iss, sub, i) && v[i].iss == iss && v[i].sub
            == sub,
    decreases k,
{
    if exists|i: int| 0 <= i < k && is_waiting(#[trigger] v[i], iss, sub) {
        let i = choose|i: int| 0 <= i < k && is_waiting(#[trigger] v[i], iss, sub);
        lemma_first_waiting(v, iss, sub, i);
    } else {
        assert(first_waiting(v, iss, sub, k));
    }
}

/// Taking one identity off a list takes nobody else off it.
pub proof fn law_everybody_else_stays(
    v: Seq<PrincipalData>,
    w: Seq<WaitData>,
    iss: Seq<char>,
    sub: Seq<char>,
    k: int,
)
    ensures
        0 <= k < v.len() && !(v[k].iss == iss && v[k].sub == sub) ==> kept(
            v,
            |x: PrincipalData| !is_principal(x, iss, sub),
        ).contains(v[k]),
        0 <= k < w.len() && !(w[k].iss == iss && w[k].sub == sub) ==> kept(
            w,
            |x: WaitData| !is_waiting(x, iss, sub),
        ).contains(w[k]),
        !holds_principal(kept(v, |x: PrincipalData| !is_principal(x, iss, sub)), iss, sub),
{
    let p = |x: PrincipalData| !is_principal(x, iss, sub);
    let q = |x: WaitData| !is_waiting(x, iss, sub);
    if 0 <= k < v.len() && !(v[k].iss == iss && v[k].sub == sub) {
        lemma_kept(v, p);
    }
    if 0 <= k < w.len() && !(w[k].iss == iss && w[k].sub == sub) {
        lemma_kept(w, q);
    }
    lemma_kept(v, p);
}

/// Someone who was not seen before waits behind everybody who does.
pub proof fn law_someone_new_waits(v: Seq<WaitData>, iss: Seq<char>, sub: Seq<char>, name: Seq<char>, now: i64)
    requires
        forall|i: int| 0 <= i < v.len() ==> !((#[trigger] v[i]).iss == iss && v[i].sub == sub),
    ensures
        sighted(v, iss, sub, name, now).len() == v.len() + 1,
        v.is_prefix_of(sighted(v, iss, sub, name, now)),
        sighted(v, iss, sub, name, now).last() == (WaitData {
            iss,
            sub,
            name,
            first_seen_us: now,
            last_seen_us: now,
        }),
{
    assert(!holds_waiting(v, iss, sub));
}

/// Whoever comes back moves nobody else.
pub proof fn law_a_return_moves_nobody_else(
    v: Seq<WaitData>,
    iss: Seq<char>,
    sub: Seq<char>,
    name: Seq<char>,
    now: i64,
    k: int,
)
    requires
        0 <= k < v.len(),
        !(v[k].iss == iss && v[k].sub == sub),
    ensures
        sighted(v, iss, sub, name, now)[k] == v[k],
{
}

/// Whoever was first seen within the time waits on, where there is room for
/// everybody.
pub proof fn law_the_recent_wait_on(v: Seq<WaitData>, now: int, ttl_us: int, k: int)
    requires
        0 <= k < v.len() <= 25,
        i64::MIN <= now - ttl_us <= i64::MAX,
        v[k].first_seen_us >= now - ttl_us,
    ensures
        evicted(v, now, ttl_us).contains(v[k]),
{
    let limit = expiry_limit(now, ttl_us);
    let p = |x: WaitData| x.first_seen_us >= limit;
    lemma_kept(v, p);
}

/// Nothing of a principal or of someone who waits goes unseen, and a list shows
/// every item in its place.
pub proof fn law_nothing_goes_unseen(
    a: RuntimePrincipal,
    b: WaitlistEntry,
    c: PrincipalsStore,
    x: Seq<RuntimePrincipal>,
    y: Seq<WaitlistEntry>,
    i: int,
)
    ensures
        a@.iss == a.iss@,
        a@.sub == a.sub@,
        a@.name == a.name@,
        a@.label == text::opt_text(a.label),
        a@.scopes == text::texts(a.scopes@),
        a@.created_us == a.created_us,
        a@.updated_us == a.updated_us,
        b@.iss == b.iss@,
        b@.sub == b.sub@,
        b@.name == b.name@,
        b@.first_seen_us == b.first_seen_us,
        b@.last_seen_us == b.last_seen_us,
        c@.principals == principals_data(c.principals@),
        c@.waiting == waiting_data(c.waiting@),
        principals_data(x).len() == x.len(),
        0 <= i < x.len() ==> principals_data(x)[i] == x[i]@,
        waiting_data(y).len() == y.len(),
        0 <= i < y.len() ==> waiting_data(y)[i] == y[i]@,
{
}

} // verus!
