//! The registry of live sessions: who is connected, and to whom an event
//! fans out.

use vstd::prelude::*;

verus! {

/// A session's identifier, fresh for each connection.
pub type SessionId = u128;

/// A registered session and its outbound channel.
pub struct Member<C> {
    pub id: SessionId,
    pub channel: C,
}

/// The live sessions, in the order in which they registered, each with its
/// outbound channel.
pub struct SessionRegistry<C> {
    members: Vec<Member<C>>,
}

/// Where `id` stands in `e` (its last entry), or `-1`.
pub open spec fn position<C>(e: Seq<(SessionId, C)>, id: SessionId) -> int
    decreases e.len(),
{
    if e.len() == 0 {
        -1
    } else if e.last().0 == id {
        e.len() - 1
    } else {
        position(e.drop_last(), id)
    }
}

pub open spec fn is_member<C>(e: Seq<(SessionId, C)>, id: SessionId) -> bool {
    position(e, id) >= 0
}

/// No identifier appears twice.
pub open spec fn unique_ids<C>(e: Seq<(SessionId, C)>) -> bool {
    forall|i: int, j: int| 0 <= i < j < e.len() ==> #[trigger] e[i].0 != #[trigger] e[j].0
}

/// The entries after registering `id` with `ch`: an existing entry for `id`
/// gets the new channel in place, else the session joins at the end.
pub open spec fn registered<C>(e: Seq<(SessionId, C)>, id: SessionId, ch: C) -> Seq<
    (SessionId, C),
> {
    if is_member(e, id) {
        e.update(position(e, id), (id, ch))
    } else {
        e.push((id, ch))
    }
}

/// The entries after removing `id`; unchanged where it is absent.
pub open spec fn deregistered<C>(e: Seq<(SessionId, C)>, id: SessionId) -> Seq<(SessionId, C)> {
    if is_member(e, id) {
        e.remove(position(e, id))
    } else {
        e
    }
}

/// The sessions that a broadcast reaches, in registration order: all but
/// the excluded one.
pub open spec fn recipients<C>(e: Seq<(SessionId, C)>, exclude: Option<SessionId>) -> Seq<
    SessionId,
>
    decreases e.len(),
{
    if e.len() == 0 {
        Seq::empty()
    } else {
        let r = recipients(e.drop_last(), exclude);
        if exclude == Some(e.last().0) {
            r
        } else {
            r.push(e.last().0)
        }
    }
}

/// The channel registered for `id`, if any.
pub open spec fn channel_for<C>(e: Seq<(SessionId, C)>, id: SessionId) -> Option<C> {
    if is_member(e, id) {
        Some(e[position(e, id)].1)
    } else {
        None
    }
}

proof fn lemma_position<C>(e: Seq<(SessionId, C)>, id: SessionId)
    ensures
        -1 <= position(e, id) < e.len(),
        position(e, id) >= 0 ==> e[position(e, id)].0 == id,
        forall|j: int| position(e, id) < j < e.len() ==> #[trigger] e[j].0 != id,
    decreases e.len(),
{
    if e.len() > 0 && e.last().0 != id {
        lemma_position(e.drop_last(), id);
        let t = e.drop_last();
        assert forall|j: int| position(e, id) < j < e.len() implies #[trigger] e[j].0 != id by {
            if j < e.len() - 1 {
                assert(e[j] == t[j]);
            }
        }
    }
}

proof fn lemma_position_prefix<C>(e: Seq<(SessionId, C)>, id: SessionId, i: int)
    requires
        0 <= i <= e.len(),
        forall|j: int| i <= j < e.len() ==> #[trigger] e[j].0 != id,
    ensures
        position(e, id) == position(e.subrange(0, i), id),
    decreases e.len() - i,
{
    if i < e.len() {
        assert(e.drop_last().subrange(0, i) =~= e.subrange(0, i));
        lemma_position_prefix(e.drop_last(), id, i);
    } else {
        assert(e.subrange(0, i) =~= e);
    }
}

/// `id` is registered exactly where some entry carries it.
pub proof fn lemma_member_iff<C>(e: Seq<(SessionId, C)>, id: SessionId)
    ensures
        is_member(e, id) <==> exists|i: int| 0 <= i < e.len() && #[trigger] e[i].0 == id,
{
    lemma_position(e, id);
    if exists|i: int| 0 <= i < e.len() && #[trigger] e[i].0 == id {
        let i = choose|i: int| 0 <= i < e.len() && #[trigger] e[i].0 == id;
        assert(position(e, id) >= i);
    }
}

/// Registering keeps every identifier unique, leaves every other session
/// registered, and registers `id`.
pub proof fn lemma_register_keeps_members<C>(e: Seq<(SessionId, C)>, id: SessionId, ch: C)
    requires
        unique_ids(e),
    ensures
        unique_ids(registered(e, id, ch)),
        is_member(registered(e, id, ch), id),
        forall|x: SessionId| is_member(e, x) ==> #[trigger] is_member(registered(e, id, ch), x),
        registered(e, id, ch).len() == if is_member(e, id) {
            e.len()
        } else {
            e.len() + 1
        },
{
    let r = registered(e, id, ch);
    lemma_position(e, id);
    lemma_member_iff(r, id);
    if is_member(e, id) {
        assert(r[position(e, id)].0 == id);
        assert forall|a: int, b: int| 0 <= a < b < r.len() implies #[trigger] r[a].0
            != #[trigger] r[b].0 by {
            assert(e[a].0 != e[b].0);
        }
    } else {
        assert(r[e.len() as int].0 == id);
        lemma_member_iff(e, id);
        assert forall|a: int, b: int| 0 <= a < b < r.len() implies #[trigger] r[a].0
            != #[trigger] r[b].0 by {
            if b < e.len() {
                assert(e[a].0 != e[b].0);
            } else {
                assert(r[a] == e[a]);
            }
        }
    }
    assert forall|x: SessionId| is_member(e, x) implies #[trigger] is_member(r, x) by {
        lemma_member_iff(e, x);
        lemma_member_iff(r, x);
        let i = choose|i: int| 0 <= i < e.len() && #[trigger] e[i].0 == x;
        assert(r[i].0 == x);
    }
}

/// The entries after registering each `(id, channel)` of `xs` in turn.
pub open spec fn register_all<C>(e: Seq<(SessionId, C)>, xs: Seq<(SessionId, C)>) -> Seq<
    (SessionId, C),
>
    decreases xs.len(),
{
    if xs.len() == 0 {
        e
    } else {
        register_all(registered(e, xs[0].0, xs[0].1), xs.drop_first())
    }
}

/// However many sessions register, one after another, each of them is
/// registered exactly once afterwards and none registered before is lost;
/// distinct newcomers add one entry each.
pub proof fn lemma_registrations_each_once<C>(e: Seq<(SessionId, C)>, xs: Seq<(SessionId, C)>)
    requires
        unique_ids(e),
    ensures
        unique_ids(register_all(e, xs)),
        forall|k: int| 0 <= k < xs.len() ==> is_member(register_all(e, xs), #[trigger] xs[k].0),
        forall|x: SessionId| is_member(e, x) ==> #[trigger] is_member(register_all(e, xs), x),
        unique_ids(xs) && (forall|k: int|
            0 <= k < xs.len() ==> !is_member(e, #[trigger] xs[k].0)) ==> register_all(
            e,
            xs,
        ).len() == e.len() + xs.len(),
    decreases xs.len(),
{
    if xs.len() > 0 {
        let e1 = registered(e, xs[0].0, xs[0].1);
        let rest = xs.drop_first();
        lemma_register_keeps_members(e, xs[0].0, xs[0].1);
        lemma_registrations_each_once(e1, rest);
        let r = register_all(e, xs);
        assert(r == register_all(e1, rest));
        assert forall|k: int| 0 <= k < xs.len() implies is_member(r, #[trigger] xs[k].0) by {
            if k > 0 {
                assert(xs[k] == rest[k - 1]);
            }
        }
        if unique_ids(xs) && (forall|k: int| 0 <= k < xs.len() ==> !is_member(e, #[trigger] xs[k].0)) {
            assert(unique_ids(rest)) by {
                assert forall|a: int, b: int| 0 <= a < b < rest.len() implies #[trigger] rest[a].0
                    != #[trigger] rest[b].0 by {
                    assert(xs[a + 1].0 != xs[b + 1].0);
                }
            }
            assert forall|k: int| 0 <= k < rest.len() implies !is_member(e1, #[trigger] rest[k].0) by {
                let x = rest[k].0;
                assert(xs[k + 1].0 == x);
                assert(xs[0].0 != x);
                assert(!is_member(e, x));
                lemma_member_iff(e, x);
                lemma_member_iff(e1, x);
                if is_member(e1, x) {
                    let i = choose|i: int| 0 <= i < e1.len() && #[trigger] e1[i].0 == x;
                    if i < e.len() {
                        assert(e1[i] == e[i]);
                    }
                }
            }
        }
    }
}

/// With two sessions registered, a broadcast that excludes the first
/// reaches the second alone.
pub proof fn lemma_broadcast_skips_sender<C>(id1: SessionId, ch1: C, id2: SessionId, ch2: C)
    requires
        id1 != id2,
    ensures
        recipients(
            registered(registered(Seq::<(SessionId, C)>::empty(), id1, ch1), id2, ch2),
            Some(id1),
        ) == seq![id2],
{
    let e0 = Seq::<(SessionId, C)>::empty();
    let e1 = registered(e0, id1, ch1);
    assert(!is_member(e0, id1));
    assert(e1 == seq![(id1, ch1)]);
    assert(position(e1, id2) == position(e1.drop_last(), id2));
    assert(e1.drop_last() =~= e0);
    assert(!is_member(e1, id2));
    let e2 = registered(e1, id2, ch2);
    assert(e2.drop_last() =~= e1);
    assert(e1.drop_last() =~= e0);
    assert(e1.last().0 == id1);
    assert(recipients(e1.drop_last(), Some(id1)) == Seq::<SessionId>::empty());
    assert(recipients(e1, Some(id1)) =~= Seq::<SessionId>::empty());
    assert(e2.last().0 == id2);
    assert(recipients(e2, Some(id1)) =~= seq![id2]);
}

/// Deregistering a session that is not registered changes nothing.
pub proof fn lemma_deregister_absent<C>(e: Seq<(SessionId, C)>, id: SessionId)
    requires
        !is_member(e, id),
    ensures
        deregistered(e, id) == e,
{
}

impl<C> SessionRegistry<C> {
    /// The registered sessions, in registration order, with their channels.
    pub closed spec fn entries(&self) -> Seq<(SessionId, C)> {
        self.members@.map_values(|m: Member<C>| (m.id, m.channel))
    }

    /// Every session is registered once.
    pub open spec fn wf(&self) -> bool {
        unique_ids(self.entries())
    }

    /// An empty registry.
    pub fn new() -> (r: Self)
        ensures
            r.wf(),
            r.entries() == Seq::<(SessionId, C)>::empty(),
    {
        let r = SessionRegistry { members: Vec::new() };
        assert(r.entries() =~= Seq::<(SessionId, C)>::empty());
        r
    }

    /// The number of live sessions.
    pub fn len(&self) -> (n: usize)
        ensures
            n == self.entries().len(),
    {
        self.members.len()
    }

    /// Where `id` stands, searching from the most recent entry.
    fn find(&self, id: SessionId) -> (r: Option<usize>)
        ensures
            r matches Some(i) ==> i == position(self.entries(), id),
            r is None ==> !is_member(self.entries(), id),
    {
        let ghost e = self.entries();
        let mut i: usize = self.members.len();
        while i > 0
            invariant
                i <= e.len(),
                e == self.entries(),
                e.len() == self.members@.len(),
                forall|j: int| i <= j < e.len() ==> #[trigger] e[j].0 != id,
            decreases i,
        {
            if self.members[i - 1].id == id {
                proof {
                    lemma_position_prefix(e, id, i as int);
                    assert(e.subrange(0, i as int).last() == e[i - 1]);
                }
                return Some(i - 1);
            }
            i = i - 1;
        }
        proof {
            lemma_position_prefix(e, id, 0);
        }
        None
    }

    /// Whether `id` is a live session.
    pub fn contains(&self, id: SessionId) -> (r: bool)
        ensures
            r == is_member(self.entries(), id),
    {
        self.find(id).is_some()
    }

    /// The channel of session `id`, if it is live.
    pub fn channel(&self, id: SessionId) -> (r: Option<&C>)
        ensures
            r matches Some(c) ==> channel_for(self.entries(), id) == Some(*c),
            r is None ==> channel_for(self.entries(), id) is None,
    {
        match self.find(id) {
            Some(i) => {
                proof {
                    lemma_position(self.entries(), id);
                }
                Some(&self.members[i].channel)
            },
            None => None,
        }
    }

    /// Adds session `id` with its channel. An entry already registered under
    /// `id` is overwritten, in place.
    pub fn register(&mut self, id: SessionId, channel: C)
        requires
            old(self).wf(),
        ensures
            final(self).wf(),
            final(self).entries() == registered(old(self).entries(), id, channel),
    {
        let ghost e = self.entries();
        proof {
            lemma_position(e, id);
        }
        match self.find(id) {
            Some(i) => {
                self.members.set(i, Member { id, channel });
                assert(self.entries() =~= registered(e, id, channel));
                assert forall|a: int, b: int| 0 <= a < b < self.entries().len() implies #[trigger] self.entries()[a].0
                    != #[trigger] self.entries()[b].0 by {
                    assert(e[a].0 != e[b].0);
                }
            },
            None => {
                self.members.push(Member { id, channel });
                assert(self.entries() =~= registered(e, id, channel));
                assert forall|a: int, b: int| 0 <= a < b < self.entries().len() implies #[trigger] self.entries()[a].0
                    != #[trigger] self.entries()[b].0 by {
                    if b < e.len() {
                        assert(e[a].0 != e[b].0);
                    } else {
                        assert(e[a].0 != id);
                    }
                }
            },
        }
    }

    /// Removes session `id`; nothing happens where it is not registered.
    pub fn deregister(&mut self, id: SessionId)
        requires
            old(self).wf(),
        ensures
            final(self).wf(),
            final(self).entries() == deregistered(old(self).entries(), id),
    {
        let ghost e = self.entries();
        proof {
            lemma_position(e, id);
        }
        match self.find(id) {
            Some(i) => {
                self.members.remove(i);
                assert(self.entries() =~= deregistered(e, id));
                assert forall|a: int, b: int| 0 <= a < b < self.entries().len() implies #[trigger] self.entries()[a].0
                    != #[trigger] self.entries()[b].0 by {
                    let a2 = if a < i { a } else { a + 1 };
                    let b2 = if b < i { b } else { b + 1 };
                    assert(self.entries()[a] == e[a2]);
                    assert(self.entries()[b] == e[b2]);
                    assert(e[a2].0 != e[b2].0);
                }
            },
            None => {},
        }
    }

    /// The sessions that a broadcast excluding `exclude` reaches, in
    /// registration order.
    pub fn recipients(&self, exclude: Option<SessionId>) -> (r: Vec<SessionId>)
        ensures
            r@ == recipients(self.entries(), exclude),
    {
        let ghost e = self.entries();
        let mut r: Vec<SessionId> = Vec::new();
        let mut i: usize = 0;
        while i < self.members.len()
            invariant
                i <= e.len(),
                e == self.entries(),
                e.len() == self.members@.len(),
                r@ == recipients(e.subrange(0, i as int), exclude),
            decreases e.len() - i,
        {
            let ghost next = e.subrange(0, i + 1);
            assert(next.drop_last() =~= e.subrange(0, i as int));
            let id = self.members[i].id;
            let skip = match exclude {
                Some(x) => x == id,
                None => false,
            };
            if !skip {
                r.push(id);
            }
            i = i + 1;
        }
        assert(e.subrange(0, e.len() as int) =~= e);
        r
    }
}

} // verus!
