//! The chat server's decisions: who is connected, and who receives a
//! message.
use vstd::prelude::*;

verus! {

broadcast use vstd::seq_lib::lemma_seq_contains_after_push;

/// What happens on the chat server's connections, each known by its number.
pub enum SocketEvent {
    Connect(u32),
    Message(u32, String),
    Disconnect(u32),
}

/// The connections of the chat server.
pub struct ChatRoom {
    members: Vec<u32>,
}

impl View for ChatRoom {
    type V = Set<u32>;

    closed spec fn view(&self) -> Set<u32> {
        self.members@.to_set()
    }
}

/// The members after `event`.
pub open spec fn members_after(members: Set<u32>, event: SocketEvent) -> Set<u32> {
    match event {
        SocketEvent::Connect(id) => members.insert(id),
        SocketEvent::Message(_, _) => members,
        SocketEvent::Disconnect(id) => members.remove(id),
    }
}

/// `deliveries` hands `text` once to every member but `sender`, and to no
/// one else.
pub open spec fn delivers_to_others(
    deliveries: Seq<(u32, String)>,
    members: Set<u32>,
    sender: u32,
    text: Seq<char>,
) -> bool {
    &&& forall|k: int| 0 <= k < deliveries.len() ==> (#[trigger] deliveries[k]).1@ == text
    &&& forall|k: int|
        0 <= k < deliveries.len() ==> (#[trigger] deliveries[k]).0 != sender && members.contains(
            deliveries[k].0,
        )
    &&& forall|id: u32| members.contains(id) && id != sender ==> exists|k: int|
        0 <= k < deliveries.len() && (#[trigger] deliveries[k]).0 == id
    &&& forall|a: int, b: int|
        0 <= a < b < deliveries.len() ==> (#[trigger] deliveries[a]).0 != (#[trigger] deliveries[b]).0
}

/// What the server sends on `event`: on a message, the text to every
/// other member; nothing otherwise.
pub open spec fn deliveries_for(
    deliveries: Seq<(u32, String)>,
    members: Set<u32>,
    event: SocketEvent,
) -> bool {
    match event {
        SocketEvent::Message(sender, text) => delivers_to_others(deliveries, members, sender, text@),
        _ => deliveries.len() == 0,
    }
}

impl ChatRoom {
    /// No connection is listed twice.
    pub closed spec fn wf(&self) -> bool {
        self.members@.no_duplicates()
    }

    /// A chat room with no connections.
    pub fn new() -> (room: ChatRoom)
        ensures
            room.wf(),
            room@ == Set::<u32>::empty(),
    {
        let room = ChatRoom { members: Vec::new() };
        assert(room.members@.to_set() =~= Set::<u32>::empty());
        room
    }

    /// Whether connection `id` is open.
    pub fn is_member(&self, id: u32) -> (r: bool)
        ensures
            r == self@.contains(id),
    {
        let mut k: usize = 0;
        while k < self.members.len()
            invariant
                0 <= k <= self.members@.len(),
                forall|j: int| 0 <= j < k ==> self.members@[j] != id,
            decreases self.members@.len() - k,
        {
            if self.members[k] == id {
                assert(self.members@.contains(id));
                return true;
            }
            k = k + 1;
        }
        false
    }

    /// Applies `event`: a connection joins, leaves, or sends a message,
    /// which goes to every other open connection. Returns what to send,
    /// and to whom.
    pub fn handle(&mut self, event: SocketEvent) -> (deliveries: Vec<(u32, String)>)
        requires
            old(self).wf(),
        ensures
            final(self).wf(),
            final(self)@ == members_after(old(self)@, event),
            deliveries_for(deliveries@, old(self)@, event),
    {
        let ghost before = self.members@;
        match event {
            SocketEvent::Connect(id) => {
                if !self.is_member(id) {
                    self.members.push(id);
                    proof {

                        assert(self.members@.to_set() =~= before.to_set().insert(id));
                        assert forall|a: int, b: int|
                            0 <= a < b < self.members@.len() implies self.members@[a] != self.members@[b] by {
                            if b == before.len() {
                                assert(before.contains(before[a]));
                            }
                        }
                    }
                } else {
                    assert(before.to_set().insert(id) =~= before.to_set());
                }
                Vec::new()
            },
            SocketEvent::Message(sender, text) => {
                let mut deliveries: Vec<(u32, String)> = Vec::new();
                let ghost mut src: Seq<int> = Seq::empty();
                let mut k: usize = 0;
                while k < self.members.len()
                    invariant
                        0 <= k <= before.len(),
                        self.members@ == before,
                        before.no_duplicates(),
                        src.len() == deliveries@.len(),
                        forall|j: int|
                            0 <= j < src.len() ==> 0 <= #[trigger] src[j] < k && before[src[j]]
                                == deliveries@[j].0 && deliveries@[j].0 != sender
                                && deliveries@[j].1@ == text@,
                        forall|a: int, b: int| 0 <= a < b < src.len() ==> #[trigger] src[a] < #[trigger] src[b],
                        forall|m: int| 0 <= m < k && #[trigger] before[m] != sender ==> src.contains(m),
                    decreases before.len() - k,
                {
                    let id = self.members[k];
                    if id != sender {
                        deliveries.push((id, text.clone()));
                        proof {
                            src = src.push(k as int);
                        }
                    }
                    k = k + 1;
                }
                proof {
                    assert forall|id: u32| before.to_set().contains(id) && id != sender implies exists|j: int|
                        0 <= j < deliveries@.len() && (#[trigger] deliveries@[j]).0 == id by {
                        assert(before.contains(id));
                        let m = choose|m: int| 0 <= m < before.len() && before[m] == id;
                        assert(src.contains(m));
                        let j = choose|j: int| 0 <= j < src.len() && src[j] == m;
                        assert(deliveries@[j].0 == id);
                    }
                    assert forall|j: int| 0 <= j < deliveries@.len() implies (#[trigger] deliveries@[j]).0
                        != sender && before.to_set().contains(deliveries@[j].0) by {
                        assert(before[src[j]] == deliveries@[j].0);
                        assert(before.contains(deliveries@[j].0));
                    }
                    assert forall|a: int, b: int| 0 <= a < b < deliveries@.len() implies (#[trigger] deliveries@[a]).0
                        != (#[trigger] deliveries@[b]).0 by {
                        assert(src[a] < src[b]);
                        assert(before[src[a]] == deliveries@[a].0);
                        assert(before[src[b]] == deliveries@[b].0);
                    }
                }
                deliveries
            },
            SocketEvent::Disconnect(id) => {
                let mut k: usize = 0;
                while k < self.members.len() && self.members[k] != id
                    invariant
                        0 <= k <= self.members@.len(),
                        self.members@ == before,
                        forall|j: int| 0 <= j < k ==> before[j] != id,
                    decreases self.members@.len() - k,
                {
                    k = k + 1;
                }
                if k < self.members.len() {
                    self.members.remove(k);
                    proof {
                        before.remove_ensures(k as int);
                        assert forall|x: u32| #[trigger] self.members@.contains(x) <==> before.contains(x)
                            && x != id by {
                            if self.members@.contains(x) {
                                let j = choose|j: int| 0 <= j < self.members@.len() && self.members@[j] == x;
                                if j < k {
                                    assert(before[j] == x);
                                } else {
                                    assert(before[j + 1] == x);
                                }
                            }
                            if before.contains(x) && x != id {
                                let j = choose|j: int| 0 <= j < before.len() && before[j] == x;
                                if j < k {
                                    assert(self.members@[j] == x);
                                } else {
                                    assert(self.members@[j - 1] == x);
                                }
                            }
                        }
                        assert(self.members@.to_set() =~= before.to_set().remove(id));
                        assert forall|a: int, b: int|
                            0 <= a < b < self.members@.len() implies self.members@[a] != self.members@[b] by {
                            let a0 = if a < k { a } else { a + 1 };
                            let b0 = if b < k { b } else { b + 1 };
                            assert(self.members@[a] == before[a0]);
                            assert(self.members@[b] == before[b0]);
                        }
                    }
                } else {
                    assert(before.to_set().remove(id) =~= before.to_set());
                }
                Vec::new()
            },
        }
    }
}

/// Connecting a new connection and disconnecting it again leaves the
/// members as they were.
pub proof fn law_connect_then_disconnect(members: Set<u32>, id: u32)
    requires
        !members.contains(id),
    ensures
        members_after(members_after(members, SocketEvent::Connect(id)), SocketEvent::Disconnect(id))
            == members,
{
    assert(members.insert(id).remove(id) =~= members);
}

/// A connection that has left receives nothing until it connects again.
pub proof fn law_left_receives_nothing(
    members: Set<u32>,
    id: u32,
    deliveries: Seq<(u32, String)>,
    event: SocketEvent,
)
    requires
        deliveries_for(deliveries, members_after(members, SocketEvent::Disconnect(id)), event),
    ensures
        forall|k: int| 0 <= k < deliveries.len() ==> (#[trigger] deliveries[k]).0 != id,
{
}


/// After a connection joins, it is a member, whatever the room held before,
/// and every other connection is a member exactly as before.
pub proof fn law_connect_adds(members: Set<u32>, id: u32, other: u32)
    requires
        other != id,
    ensures
        members_after(members, SocketEvent::Connect(id)).contains(id),
        members_after(members, SocketEvent::Connect(id)).contains(other) == members.contains(other),
{
}

/// After a connection leaves, it is no member, and every other connection
/// is a member exactly as before.
pub proof fn law_disconnect_removes(members: Set<u32>, id: u32, other: u32)
    requires
        other != id,
    ensures
        !members_after(members, SocketEvent::Disconnect(id)).contains(id),
        members_after(members, SocketEvent::Disconnect(id)).contains(other) == members.contains(
            other,
        ),
{
}

/// A message changes nobody's membership.
pub proof fn law_message_keeps_members(members: Set<u32>, sender: u32, text: String)
    ensures
        members_after(members, SocketEvent::Message(sender, text)) == members,
{
}

/// Once every connection of a list has joined an empty room, a message
/// from one of them reaches each of the others.
pub proof fn law_message_reaches_every_other_joined(
    joined: Seq<u32>,
    sender: u32,
    text: String,
    deliveries: Seq<(u32, String)>,
    id: u32,
)
    requires
        deliveries_for(deliveries, joined.to_set(), SocketEvent::Message(sender, text)),
        joined.contains(id),
        id != sender,
    ensures
        exists|k: int| 0 <= k < deliveries.len() && (#[trigger] deliveries[k]).0 == id
            && deliveries[k].1@ == text@,
{
    assert(joined.to_set().contains(id));
    let k = choose|k: int| 0 <= k < deliveries.len() && (#[trigger] deliveries[k]).0 == id;
    assert(deliveries[k].1@ == text@);
}

} // verus!
