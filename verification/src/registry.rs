//! The registry: the one shared structure of the chat relay, holding every
//! currently registered client.
//!
//! The registry is modelled as a sequence of `(connection id, nickname)`
//! pairs in insertion order.  Its invariant — no two live entries share a
//! nickname or a connection id, and every nickname is non-empty and trimmed
//! — is `registry_wf`; every operation states that it preserves it.
//!
//! Callers that share one registry between workers must serialize every
//! operation on it (one exclusive lock around each call), so that checking a
//! nickname and inserting it form one critical section and a broadcast sees
//! a consistent snapshot of membership.

use vstd::prelude::*;
use crate::errors::ChatError;
use crate::text::text_equal;
use crate::text::trim_spec;

verus! {

/// One registered client: the id of its connection and its nickname.
///
/// The id stands for the client's connection handle; the caller that owns
/// the sockets picks it and keeps it unique among live connections.
pub struct ClientRecord {
    /// Identifies the client's connection to the caller that performs sends.
    pub id: u64,
    /// The registered nickname.
    pub nickname: String,
}

impl View for ClientRecord {
    type V = (u64, Seq<char>);

    open spec fn view(&self) -> (u64, Seq<char>) {
        (self.id, self.nickname@)
    }
}

/// A nickname the registry accepts: non-empty, with no surrounding
/// whitespace.
pub open spec fn valid_nickname(n: Seq<char>) -> bool {
    n.len() > 0 && trim_spec(n) == n
}

/// Whether some entry of the model carries nickname `n`.
pub open spec fn has_nickname(m: Seq<(u64, Seq<char>)>, n: Seq<char>) -> bool {
    exists|i: int| 0 <= i < m.len() && m[i].1 == n
}

/// Whether some entry of the model carries connection id `id`.
pub open spec fn has_id(m: Seq<(u64, Seq<char>)>, id: u64) -> bool {
    exists|i: int| 0 <= i < m.len() && m[i].0 == id
}

/// The registry invariant: pairwise distinct nicknames, pairwise distinct
/// connection ids, and every nickname valid.
pub open spec fn registry_wf(m: Seq<(u64, Seq<char>)>) -> bool {
    &&& forall|i: int, j: int|
        #![trigger m[i], m[j]]
        0 <= i < j < m.len() ==> m[i].1 != m[j].1 && m[i].0 != m[j].0
    &&& forall|i: int| 0 <= i < m.len() ==> valid_nickname(#[trigger] m[i].1)
}

/// The model without the entries that carry nickname `n`, order kept.
pub open spec fn without_nickname(m: Seq<(u64, Seq<char>)>, n: Seq<char>) -> Seq<
    (u64, Seq<char>),
>
    decreases m.len(),
{
    if m.len() == 0 {
        m
    } else if m.first().1 == n {
        without_nickname(m.drop_first(), n)
    } else {
        seq![m.first()] + without_nickname(m.drop_first(), n)
    }
}

/// The ids of the entries whose nickname differs from `n`, in registry
/// order: the delivery targets of a broadcast that excludes `n`.
pub open spec fn peer_ids(m: Seq<(u64, Seq<char>)>, n: Seq<char>) -> Seq<u64>
    decreases m.len(),
{
    if m.len() == 0 {
        Seq::empty()
    } else if m.first().1 == n {
        peer_ids(m.drop_first(), n)
    } else {
        seq![m.first().0] + peer_ids(m.drop_first(), n)
    }
}

/// The ids of all entries, in registry order.
pub open spec fn all_ids(m: Seq<(u64, Seq<char>)>) -> Seq<u64>
    decreases m.len(),
{
    if m.len() == 0 {
        Seq::empty()
    } else {
        seq![m.first().0] + all_ids(m.drop_first())
    }
}

/// The collection of all currently registered clients, in insertion order.
pub struct Registry {
    clients: Vec<ClientRecord>,
}

impl View for Registry {
    type V = Seq<(u64, Seq<char>)>;

    closed spec fn view(&self) -> Seq<(u64, Seq<char>)> {
        Seq::new(self.clients@.len(), |i: int| self.clients@[i]@)
    }
}

impl Registry {
    /// An empty registry.
    pub fn new() -> (r: Registry)
        ensures
            r@ == Seq::<(u64, Seq<char>)>::empty(),
            registry_wf(r@),
    {
        let r = Registry { clients: Vec::new() };
        proof {
            assert(r@ =~= Seq::<(u64, Seq<char>)>::empty());
        }
        r
    }

    /// How many clients are registered.
    pub fn count(&self) -> (n: usize)
        ensures
            n == self@.len(),
    {
        self.clients.len()
    }

    /// Whether `name` is currently registered.
    pub fn contains_nickname(&self, name: &str) -> (r: bool)
        ensures
            r == has_nickname(self@, name@),
    {
        let n = self.clients.len();
        let mut i: usize = 0;
        while i < n
            invariant
                i <= n,
                n == self@.len(),
                forall|k: int| 0 <= k < i ==> self@[k].1 != name@,
            decreases n - i,
        {
            if text_equal(self.clients[i].nickname.as_str(), name) {
                proof {
                    assert(self@[i as int].1 == name@);
                }
                return true;
            }
            i = i + 1;
        }
        false
    }

    /// Whether some registered client uses connection id `id`.
    pub fn contains_id(&self, id: u64) -> (r: bool)
        ensures
            r == has_id(self@, id),
    {
        let n = self.clients.len();
        let mut i: usize = 0;
        while i < n
            invariant
                i <= n,
                n == self@.len(),
                forall|k: int| 0 <= k < i ==> (#[trigger] self@[k]).0 != id,
            decreases n - i,
        {
            if self.clients[i].id == id {
                proof {
                    assert(self@[i as int].0 == id);
                }
                return true;
            }
            i = i + 1;
        }
        false
    }

    /// The registered record carrying `name`, if any.
    pub fn find_by_nickname(&self, name: &str) -> (r: Option<&ClientRecord>)
        ensures
            (match r {
                Some(c) => has_nickname(self@, name@) && c.nickname@ == name@ && self@.contains(
                    c@,
                ),
                None => !has_nickname(self@, name@),
            }),
    {
        let n = self.clients.len();
        let mut i: usize = 0;
        while i < n
            invariant
                i <= n,
                n == self@.len(),
                forall|k: int| 0 <= k < i ==> self@[k].1 != name@,
            decreases n - i,
        {
            if text_equal(self.clients[i].nickname.as_str(), name) {
                let c = &self.clients[i];
                proof {
                    assert(self@[i as int] == c@);
                    assert(self@.contains(c@));
                }
                return Some(c);
            }
            i = i + 1;
        }
        None
    }

    /// Registers `record`.  Fails with `DuplicateNickname` — and changes
    /// nothing — exactly when the nickname is already taken.
    ///
    /// Checking and inserting happen in one call, so a caller that holds
    /// the registry lock around it cannot race another registration.
    pub fn insert(&mut self, record: ClientRecord) -> (r: Result<(), ChatError>)
        requires
            registry_wf(old(self)@),
            valid_nickname(record.nickname@),
            !has_id(old(self)@, record.id),
        ensures
            registry_wf(final(self)@),
            (has_nickname(old(self)@, record@.1) ==> r == Err::<(), ChatError>(
                ChatError::DuplicateNickname,
            ) && final(self)@ == old(self)@),
            (!has_nickname(old(self)@, record@.1) ==> r == Ok::<(), ChatError>(())
                && final(self)@ == old(self)@.push(record@)),
    {
        let ghost rv = record@;
        if self.contains_nickname(record.nickname.as_str()) {
            return Err(ChatError::DuplicateNickname);
        }
        self.clients.push(record);
        proof {
            let m0 = old(self)@;
            assert(self@ =~= m0.push(rv));
            assert forall|i: int, j: int|
                #![trigger self@[i], self@[j]]
                0 <= i < j < self@.len() implies self@[i].1 != self@[j].1 && self@[i].0
                != self@[j].0 by {
                if j == m0.len() {
                    assert(self@[i] == m0[i]);
                    if m0[i].1 == rv.1 {
                        assert(has_nickname(m0, rv.1));
                    }
                    if m0[i].0 == rv.0 {
                        assert(has_id(m0, rv.0));
                    }
                } else {
                    assert(self@[i] == m0[i]);
                    assert(self@[j] == m0[j]);
                }
            }
            assert forall|i: int| 0 <= i < self@.len() implies valid_nickname(
                #[trigger] self@[i].1,
            ) by {
                if i < m0.len() {
                    assert(self@[i] == m0[i]);
                }
            }
        }
        Ok(())
    }

    /// Unregisters whoever carries `name`.  Removing an absent nickname is
    /// a no-op, not an error.
    pub fn remove(&mut self, name: &str)
        requires
            registry_wf(old(self)@),
        ensures
            registry_wf(final(self)@),
            final(self)@ == without_nickname(old(self)@, name@),
            !has_nickname(final(self)@, name@),
            (forall|id: u64| has_id(final(self)@, id) ==> has_id(old(self)@, id)),
    {
        let ghost m0 = old(self)@;
        let n = self.clients.len();
        let mut i: usize = 0;
        while i < n
            invariant
                i <= n,
                n == self@.len(),
                self@ == m0,
                m0 == old(self)@,
                registry_wf(m0),
                forall|k: int| 0 <= k < i ==> self@[k].1 != name@,
            decreases n - i,
        {
            if text_equal(self.clients[i].nickname.as_str(), name) {
                let ghost at = i as int;
                let _removed = self.clients.remove(i);
                proof {
                    assert(self@ =~= m0.take(at) + m0.skip(at + 1));
                    lemma_without_nickname_take_skip(m0, name@, at);
                    assert(m0.skip(at).first() == m0[at]);
                    assert(m0.skip(at).drop_first() =~= m0.skip(at + 1));
                    assert forall|k: int| 0 <= k < m0.skip(at + 1).len() implies (
                    #[trigger] m0.skip(at + 1)[k]).1 != name@ by {
                        assert(m0.skip(at + 1)[k] == m0[at + 1 + k]);
                    }
                    lemma_without_nickname_absent(m0.skip(at + 1), name@);
                    assert(self@ == without_nickname(m0, name@));
                    assert(registry_wf(self@));
                    assert(!has_nickname(self@, name@));
                    assert forall|id: u64| has_id(self@, id) implies has_id(m0, id) by {
                        let k = choose|k: int| 0 <= k < self@.len() && self@[k].0 == id;
                        if k < at {
                            assert(m0[k].0 == id);
                        } else {
                            assert(m0[k + 1].0 == id);
                        }
                    }
                }
                return ;
            }
            i = i + 1;
        }
        proof {
            lemma_without_nickname_absent(m0, name@);
        }
    }

    /// The delivery targets of a broadcast that excludes nickname `except`:
    /// the connection ids of every other registered client, in registry
    /// order.
    pub fn broadcast_targets(&self, except: &str) -> (r: Vec<u64>)
        ensures
            r@ == peer_ids(self@, except@),
    {
        let n = self.clients.len();
        let mut r: Vec<u64> = Vec::new();
        proof {
            assert(self@.skip(0) =~= self@);
            assert(r@ + peer_ids(self@, except@) =~= peer_ids(self@, except@));
        }
        let mut i: usize = 0;
        while i < n
            invariant
                i <= n,
                n == self@.len(),
                peer_ids(self@, except@) == r@ + peer_ids(self@.skip(i as int), except@),
            decreases n - i,
        {
            proof {
                assert(self@.skip(i as int).first() == self@[i as int]);
                assert(self@.skip(i as int).drop_first() =~= self@.skip(i as int + 1));
            }
            let ghost r0 = r@;
            if !text_equal(self.clients[i].nickname.as_str(), except) {
                r.push(self.clients[i].id);
                proof {
                    assert(peer_ids(self@.skip(i as int), except@) == seq![
                        self@[i as int].0,
                    ] + peer_ids(self@.skip(i as int + 1), except@));
                    assert(r0 + (seq![self@[i as int].0] + peer_ids(
                        self@.skip(i as int + 1),
                        except@,
                    )) =~= r@ + peer_ids(self@.skip(i as int + 1), except@));
                }
            }
            i = i + 1;
        }
        proof {
            assert(self@.skip(n as int) =~= Seq::<(u64, Seq<char>)>::empty());
            assert(r@ + peer_ids(self@.skip(n as int), except@) =~= r@);
        }
        r
    }
}

/// Law: no two simultaneously registered clients share a nickname.
///
/// Constructors establish `registry_wf` and every registry operation
/// preserves it, so this holds of every reachable registry state; under
/// concurrent registration attempts on one requested name, `insert` admits
/// exactly the first and rejects the rest.
pub proof fn lemma_registered_nicknames_distinct(m: Seq<(u64, Seq<char>)>)
    requires
        registry_wf(m),
    ensures
        forall|i: int, j: int|
            #![trigger m[i], m[j]]
            0 <= i < m.len() && 0 <= j < m.len() && i != j ==> m[i].1 != m[j].1,
{
    assert forall|i: int, j: int|
        #![trigger m[i], m[j]]
        0 <= i < m.len() && 0 <= j < m.len() && i != j implies m[i].1 != m[j].1 by {
        if i < j {
            assert(m[i].1 != m[j].1);
        } else {
            assert(m[j].1 != m[i].1);
        }
    }
}

/// Law: once a client is admitted under a nickname, that nickname is
/// taken, so any simultaneous rival attempt at the same name — serialized
/// after it by the registry lock — is rejected by the contract of
/// `insert`: exactly one of the attempts succeeds.
pub proof fn lemma_admitted_nickname_taken(m: Seq<(u64, Seq<char>)>, id: u64, n: Seq<char>)
    ensures
        has_nickname(m.push((id, n)), n),
{
    assert(m.push((id, n))[m.len() as int] == (id, n));
}

/// Law: a broadcast that excludes nickname `sender` targets every other
/// currently registered client exactly once, and nobody else.
///
/// The first clause says each registered peer is targeted; the second that
/// only currently registered peers are; the third that no target appears
/// twice, so each peer receives exactly one copy.
pub proof fn lemma_broadcast_exactly_once(m: Seq<(u64, Seq<char>)>, sender: Seq<char>)
    requires
        registry_wf(m),
    ensures
        forall|i: int|
            0 <= i < m.len() && (#[trigger] m[i]).1 != sender ==> peer_ids(m, sender).contains(
                m[i].0,
            ),
        forall|x: u64|
            #[trigger] peer_ids(m, sender).contains(x) ==> exists|i: int|
                0 <= i < m.len() && (#[trigger] m[i]).0 == x && m[i].1 != sender,
        forall|k: int, l: int|
            #![trigger peer_ids(m, sender)[k], peer_ids(m, sender)[l]]
            0 <= k < l < peer_ids(m, sender).len() ==> peer_ids(m, sender)[k] != peer_ids(
                m,
                sender,
            )[l],
{
    lemma_peer_ids_membership(m, sender);
    lemma_peer_ids_distinct(m, sender);
}

/// Law: the sender of a chat line never receives an echo of its own
/// message through the broadcast.
pub proof fn lemma_no_echo_to_sender(m: Seq<(u64, Seq<char>)>, id: u64, sender: Seq<char>)
    requires
        registry_wf(m),
        m.contains((id, sender)),
    ensures
        !peer_ids(m, sender).contains(id),
{
    lemma_peer_ids_membership(m, sender);
    if peer_ids(m, sender).contains(id) {
        let i = choose|i: int| 0 <= i < m.len() && (#[trigger] m[i]).0 == id && m[i].1 != sender;
        let j = choose|j: int| 0 <= j < m.len() && m[j] == (id, sender);
        if i < j {
            assert(m[i].0 != m[j].0);
        } else {
            assert(m[j].0 != m[i].0);
        }
    }
}

/// Law: once a client disconnects, no later broadcast targets its
/// connection, and its nickname is free again — by the contract of
/// `insert`, registering it anew succeeds.
pub proof fn lemma_departed_client_unreachable(
    m: Seq<(u64, Seq<char>)>,
    id: u64,
    n: Seq<char>,
    sender: Seq<char>,
)
    requires
        registry_wf(m),
        m.contains((id, n)),
    ensures
        !has_nickname(without_nickname(m, n), n),
        !peer_ids(without_nickname(m, n), sender).contains(id),
{
    let m2 = without_nickname(m, n);
    lemma_without_nickname_entries(m, n);
    if has_nickname(m2, n) {
        let i = choose|i: int| 0 <= i < m2.len() && (#[trigger] m2[i]).1 == n;
        assert(m2.contains(m2[i]));
    }
    lemma_peer_ids_membership(m2, sender);
    if peer_ids(m2, sender).contains(id) {
        let i = choose|i: int| 0 <= i < m2.len() && (#[trigger] m2[i]).0 == id && m2[i].1
            != sender;
        assert(m2.contains(m2[i]));
        let a = choose|a: int| 0 <= a < m.len() && m[a] == m2[i];
        let b = choose|b: int| 0 <= b < m.len() && m[b] == (id, n);
        assert(m[a].1 != n && m[b].1 == n);
        if a < b {
            assert(m[a].0 != m[b].0);
        } else {
            assert(m[b].0 != m[a].0);
        }
    }
}

/// Every entry left by `without_nickname` is an entry of the original
/// model, and none of them carries the removed nickname.
proof fn lemma_without_nickname_entries(m: Seq<(u64, Seq<char>)>, n: Seq<char>)
    ensures
        forall|p: (u64, Seq<char>)|
            #[trigger] without_nickname(m, n).contains(p) ==> m.contains(p) && p.1 != n,
    decreases m.len(),
{
    if m.len() > 0 {
        let rest = m.drop_first();
        let w = without_nickname(m, n);
        lemma_without_nickname_entries(rest, n);
        assert(m[0] == m.first());
        assert forall|p: (u64, Seq<char>)| #[trigger] w.contains(p) implies m.contains(p) && p.1
            != n by {
            if m.first().1 == n {
                assert(without_nickname(rest, n).contains(p));
                let i = choose|i: int| 0 <= i < rest.len() && rest[i] == p;
                assert(m[i + 1] == p);
                assert(m.contains(p));
            } else {
                let j = choose|j: int| 0 <= j < w.len() && w[j] == p;
                if j == 0 {
                    assert(m[0] == p);
                    assert(m.contains(p));
                } else {
                    assert(without_nickname(rest, n)[j - 1] == p);
                    assert(without_nickname(rest, n).contains(p));
                    let i = choose|i: int| 0 <= i < rest.len() && rest[i] == p;
                    assert(m[i + 1] == p);
                    assert(m.contains(p));
                }
            }
        }
    }
}

/// The targets of a broadcast are the ids of exactly the entries whose
/// nickname differs from the excluded one.
proof fn lemma_peer_ids_membership(m: Seq<(u64, Seq<char>)>, n: Seq<char>)
    ensures
        forall|i: int|
            0 <= i < m.len() && (#[trigger] m[i]).1 != n ==> peer_ids(m, n).contains(m[i].0),
        forall|x: u64|
            #[trigger] peer_ids(m, n).contains(x) ==> exists|i: int|
                0 <= i < m.len() && (#[trigger] m[i]).0 == x && m[i].1 != n,
    decreases m.len(),
{
    if m.len() > 0 {
        let rest = m.drop_first();
        let p = peer_ids(m, n);
        lemma_peer_ids_membership(rest, n);
        assert(m[0] == m.first());
        assert forall|i: int| 0 <= i < m.len() && (#[trigger] m[i]).1 != n implies p.contains(
            m[i].0,
        ) by {
            if m.first().1 == n {
                assert(rest[i - 1] == m[i]);
                assert(peer_ids(rest, n).contains(rest[i - 1].0));
            } else {
                if i == 0 {
                    assert(p[0] == m[0].0);
                } else {
                    assert(rest[i - 1] == m[i]);
                    assert(peer_ids(rest, n).contains(rest[i - 1].0));
                    let j = choose|j: int|
                        0 <= j < peer_ids(rest, n).len() && peer_ids(rest, n)[j] == m[i].0;
                    assert(p[j + 1] == m[i].0);
                }
            }
        }
        assert forall|x: u64| #[trigger] p.contains(x) implies exists|i: int|
            0 <= i < m.len() && (#[trigger] m[i]).0 == x && m[i].1 != n by {
            if m.first().1 == n {
                assert(peer_ids(rest, n).contains(x));
                let i = choose|i: int|
                    0 <= i < rest.len() && (#[trigger] rest[i]).0 == x && rest[i].1 != n;
                assert(m[i + 1] == rest[i]);
            } else {
                let j = choose|j: int| 0 <= j < p.len() && p[j] == x;
                if j == 0 {
                    assert(m[0].0 == x && m[0].1 != n);
                } else {
                    assert(peer_ids(rest, n)[j - 1] == x);
                    assert(peer_ids(rest, n).contains(x));
                    let i = choose|i: int|
                        0 <= i < rest.len() && (#[trigger] rest[i]).0 == x && rest[i].1 != n;
                    assert(m[i + 1] == rest[i]);
                }
            }
        }
    }
}

/// No broadcast target appears twice.
proof fn lemma_peer_ids_distinct(m: Seq<(u64, Seq<char>)>, n: Seq<char>)
    requires
        registry_wf(m),
    ensures
        forall|k: int, l: int|
            #![trigger peer_ids(m, n)[k], peer_ids(m, n)[l]]
            0 <= k < l < peer_ids(m, n).len() ==> peer_ids(m, n)[k] != peer_ids(m, n)[l],
    decreases m.len(),
{
    if m.len() > 0 {
        let rest = m.drop_first();
        let p = peer_ids(m, n);
        let pr = peer_ids(rest, n);
        lemma_registry_wf_drop_first(m);
        lemma_peer_ids_distinct(rest, n);
        lemma_peer_ids_membership(rest, n);
        assert(m[0] == m.first());
        if m.first().1 != n {
            assert forall|k: int, l: int|
                #![trigger p[k], p[l]]
                0 <= k < l < p.len() implies p[k] != p[l] by {
                if k == 0 {
                    assert(p[l] == pr[l - 1]);
                    assert(pr.contains(pr[l - 1]));
                    let i = choose|i: int|
                        0 <= i < rest.len() && (#[trigger] rest[i]).0 == pr[l - 1] && rest[i].1
                            != n;
                    assert(m[i + 1] == rest[i]);
                    assert(m[0].0 != m[i + 1].0);
                } else {
                    assert(p[k] == pr[k - 1]);
                    assert(p[l] == pr[l - 1]);
                }
            }
        }
    }
}

/// The ids of all entries are exactly the registered connection ids.
pub proof fn lemma_all_ids_membership(m: Seq<(u64, Seq<char>)>)
    ensures
        forall|x: u64| #[trigger] all_ids(m).contains(x) <==> has_id(m, x),
    decreases m.len(),
{
    if m.len() > 0 {
        let rest = m.drop_first();
        let a = all_ids(m);
        lemma_all_ids_membership(rest);
        assert(m[0] == m.first());
        assert forall|x: u64| #[trigger] a.contains(x) implies has_id(m, x) by {
            let j = choose|j: int| 0 <= j < a.len() && a[j] == x;
            if j == 0 {
                assert(m[0].0 == x);
            } else {
                assert(all_ids(rest)[j - 1] == x);
                assert(all_ids(rest).contains(x));
                let i = choose|i: int| 0 <= i < rest.len() && (#[trigger] rest[i]).0 == x;
                assert(m[i + 1] == rest[i]);
            }
        }
        assert forall|x: u64| has_id(m, x) implies #[trigger] a.contains(x) by {
            let i = choose|i: int| 0 <= i < m.len() && (#[trigger] m[i]).0 == x;
            if i == 0 {
                assert(a[0] == x);
            } else {
                assert(rest[i - 1] == m[i]);
                assert(has_id(rest, x));
                assert(all_ids(rest).contains(x));
                let j = choose|j: int| 0 <= j < all_ids(rest).len() && all_ids(rest)[j] == x;
                assert(a[j + 1] == x);
            }
        }
    }
}

/// When nobody carries the excluded nickname, a broadcast targets every
/// registered client.
pub proof fn lemma_peer_ids_all(m: Seq<(u64, Seq<char>)>, n: Seq<char>)
    requires
        !has_nickname(m, n),
    ensures
        peer_ids(m, n) == all_ids(m),
    decreases m.len(),
{
    if m.len() > 0 {
        let rest = m.drop_first();
        assert(m[0] == m.first());
        assert(m.first().1 != n);
        assert forall|k: int| 0 <= k < rest.len() implies (#[trigger] rest[k]).1 != n by {
            assert(rest[k] == m[k + 1]);
        }
        assert(!has_nickname(rest, n));
        lemma_peer_ids_all(rest, n);
    }
}

/// The invariant restricted to all entries but the first.
proof fn lemma_registry_wf_drop_first(m: Seq<(u64, Seq<char>)>)
    requires
        registry_wf(m),
        m.len() > 0,
    ensures
        registry_wf(m.drop_first()),
{
    let rest = m.drop_first();
    assert forall|i: int, j: int|
        #![trigger rest[i], rest[j]]
        0 <= i < j < rest.len() implies rest[i].1 != rest[j].1 && rest[i].0 != rest[j].0 by {
        assert(rest[i] == m[i + 1]);
        assert(rest[j] == m[j + 1]);
    }
    assert forall|i: int| 0 <= i < rest.len() implies valid_nickname(#[trigger] rest[i].1) by {
        assert(rest[i] == m[i + 1]);
    }
}

/// Removing a nickname that no entry carries leaves the model unchanged.
proof fn lemma_without_nickname_absent(m: Seq<(u64, Seq<char>)>, n: Seq<char>)
    requires
        forall|k: int| 0 <= k < m.len() ==> (#[trigger] m[k]).1 != n,
    ensures
        without_nickname(m, n) == m,
    decreases m.len(),
{
    if m.len() > 0 {
        assert(m[0] == m.first());
        assert forall|k: int| 0 <= k < m.drop_first().len() implies (#[trigger] m.drop_first()[
            k
        ]).1 != n by {
            assert(m.drop_first()[k] == m[k + 1]);
        }
        lemma_without_nickname_absent(m.drop_first(), n);
        assert(seq![m.first()] + m.drop_first() =~= m);
    }
}

/// Splitting `without_nickname` at a point before which nothing matches.
proof fn lemma_without_nickname_take_skip(m: Seq<(u64, Seq<char>)>, n: Seq<char>, j: int)
    requires
        0 <= j <= m.len(),
        forall|k: int| 0 <= k < j ==> (#[trigger] m[k]).1 != n,
    ensures
        without_nickname(m, n) == m.take(j) + without_nickname(m.skip(j), n),
    decreases j,
{
    if j == 0 {
        assert(m.skip(0) =~= m);
        assert(m.take(0) + without_nickname(m, n) =~= without_nickname(m, n));
    } else {
        assert(m[0] == m.first());
        let rest = m.drop_first();
        assert forall|k: int| 0 <= k < j - 1 implies (#[trigger] rest[k]).1 != n by {
            assert(rest[k] == m[k + 1]);
        }
        lemma_without_nickname_take_skip(rest, n, j - 1);
        assert(rest.take(j - 1) =~= m.take(j).drop_first());
        assert(rest.skip(j - 1) =~= m.skip(j));
        assert(seq![m.first()] + (rest.take(j - 1) + without_nickname(rest.skip(j - 1), n)) =~= m.take(
            j,
        ) + without_nickname(m.skip(j), n));
    }
}

} // verus!
