//! The notification channel: one message for each commit, to every
//! subscriber that is attached at that time.
//!
//! Each subscriber has a buffer of bounded length. A message that does not
//! fit pushes the oldest unread one out. Nothing is replayed: a subscriber
//! sees only what was published after it attached, and each message once.

use vstd::prelude::*;
use crate::types::{HeadSlot, StateRoot};

verus! {

/// What a commit announces: the height and its state root.
#[derive(Clone, Copy, Debug, PartialEq, Eq, Structural)]
pub struct Notification {
    pub height: u64,
    pub root: StateRoot,
}

/// The message that announces the commit `c`.
pub open spec fn announce(c: HeadSlot) -> Notification {
    Notification { height: c.height, root: c.root }
}

/// The mathematical content of a channel.
pub struct ChannelView {
    /// The length of each subscriber's buffer.
    pub capacity: nat,
    /// Every message published so far, oldest first.
    pub sent: Seq<Notification>,
    /// For each subscriber, how many messages had been published when it
    /// attached.
    pub joined: Seq<nat>,
    /// For each subscriber, the messages that it has not read yet.
    pub unread: Seq<Seq<Notification>>,
}

/// Whether the subscriber `id` has, unread, exactly the last messages
/// published, none of them from before it attached, and no more than fit.
pub open spec fn buffer_ok(v: ChannelView, id: int) -> bool {
    let n = v.unread[id].len();
    &&& n <= v.capacity
    &&& v.joined[id] + n <= v.sent.len()
    &&& v.unread[id] == v.sent.subrange(v.sent.len() - n, v.sent.len() as int)
}

impl ChannelView {
    /// The invariant of the channel.
    pub open spec fn wf(self) -> bool {
        &&& self.joined.len() == self.unread.len()
        &&& forall|id: int| 0 <= id < self.unread.len() ==> #[trigger] buffer_ok(self, id)
    }

    /// What a buffer holds after `msg` was published to it.
    pub open spec fn pushed(self, buffer: Seq<Notification>, msg: Notification) -> Seq<
        Notification,
    > {
        if self.capacity == 0 {
            buffer
        } else if buffer.len() < self.capacity {
            buffer.push(msg)
        } else {
            buffer.skip(1).push(msg)
        }
    }

    /// The channel after `msg` was published.
    pub open spec fn published(self, msg: Notification) -> ChannelView {
        ChannelView {
            sent: self.sent.push(msg),
            unread: Seq::new(self.unread.len(), |id: int| self.pushed(self.unread[id], msg)),
            ..self
        }
    }

    /// The channel after one message was published for each of `commits`,
    /// in their order.
    pub open spec fn published_all(self, commits: Seq<HeadSlot>) -> ChannelView
        decreases commits.len(),
    {
        if commits.len() == 0 {
            self
        } else {
            self.published_all(commits.drop_last()).published(announce(commits.last()))
        }
    }
}

/// The channel.
pub struct Notifier {
    capacity: usize,
    buffers: Vec<Vec<Notification>>,
    sent: Ghost<Seq<Notification>>,
    joined: Ghost<Seq<nat>>,
}

impl View for Notifier {
    type V = ChannelView;

    closed spec fn view(&self) -> ChannelView {
        ChannelView {
            capacity: self.capacity as nat,
            sent: self.sent@,
            joined: self.joined@,
            unread: Seq::new(self.buffers@.len(), |id: int| self.buffers@[id]@),
        }
    }
}

impl Notifier {
    /// A channel without subscribers whose buffers hold `capacity` messages.
    pub fn new(capacity: usize) -> (n: Notifier)
        ensures
            n@.wf(),
            n@.capacity == capacity,
            n@.sent == Seq::<Notification>::empty(),
            n@.joined == Seq::<nat>::empty(),
            n@.unread == Seq::<Seq<Notification>>::empty(),
    {
        let n = Notifier {
            capacity,
            buffers: Vec::new(),
            sent: Ghost(Seq::empty()),
            joined: Ghost(Seq::empty()),
        };
        proof {
            assert(n@.unread =~= Seq::<Seq<Notification>>::empty());
        }
        n
    }

    /// The number of subscribers.
    pub fn subscribers(&self) -> (n: usize)
        ensures
            n == self@.unread.len(),
    {
        self.buffers.len()
    }

    /// Attaches a subscriber and returns its number. Its buffer is empty:
    /// nothing that was published before reaches it.
    pub fn subscribe(&mut self) -> (id: usize)
        requires
            old(self)@.wf(),
        ensures
            final(self)@.wf(),
            id == old(self)@.unread.len(),
            final(self)@ == (ChannelView {
                joined: old(self)@.joined.push(old(self)@.sent.len()),
                unread: old(self)@.unread.push(Seq::<Notification>::empty()),
                ..old(self)@
            }),
    {
        let id = self.buffers.len();
        self.buffers.push(Vec::new());
        proof {
            self.joined@ = self.joined@.push(self.sent@.len());
            assert(self@.unread =~= old(self)@.unread.push(Seq::<Notification>::empty()));
            assert forall|k: int| 0 <= k < self@.unread.len() implies #[trigger] buffer_ok(
                self@,
                k,
            ) by {
                if k < id {
                    assert(buffer_ok(old(self)@, k));
                } else {
                    assert(self@.unread[k] =~= self@.sent.subrange(
                        self@.sent.len() as int,
                        self@.sent.len() as int,
                    ));
                }
            }
        }
        id
    }

    /// Publishes `msg` to every subscriber.
    pub fn publish(&mut self, msg: Notification)
        requires
            old(self)@.wf(),
        ensures
            final(self)@.wf(),
            final(self)@ == old(self)@.published(msg),
    {
        let n = self.buffers.len();
        let mut fresh: Vec<Vec<Notification>> = Vec::new();
        let mut i: usize = 0;
        while i < n
            invariant
                n == self.buffers.len(),
                i <= n,
                fresh@.len() == i,
                forall|k: int|
                    0 <= k < i ==> (#[trigger] fresh@[k])@ == old(self)@.pushed(
                        self.buffers@[k]@,
                        msg,
                    ),
                self.capacity == old(self).capacity,
                self.buffers == old(self).buffers,
                old(self)@.wf(),
            decreases n - i,
        {
            let buffer = &self.buffers[i];
            let len = buffer.len();
            let start: usize = if self.capacity == 0 {
                len
            } else if len < self.capacity {
                0
            } else {
                1
            };
            let mut copy: Vec<Notification> = Vec::new();
            let mut j: usize = start;
            while j < len
                invariant
                    start <= j <= len,
                    len == buffer@.len(),
                    copy@ == buffer@.subrange(start as int, j as int),
                decreases len - j,
            {
                copy.push(buffer[j]);
                proof {
                    assert(copy@ =~= buffer@.subrange(start as int, j as int + 1));
                }
                j += 1;
            }
            if self.capacity > 0 {
                copy.push(msg);
            }
            proof {
                assert(buffer@.subrange(0, len as int) =~= buffer@);
                if len > 0 {
                    assert(buffer@.subrange(1, len as int) =~= buffer@.skip(1));
                }
                assert(buffer@.subrange(len as int, len as int) =~= Seq::<Notification>::empty());
                if self.capacity == 0 {
                    assert(buffer_ok(old(self)@, i as int));
                    assert(old(self)@.unread[i as int] == buffer@);
                    assert(buffer@ =~= Seq::<Notification>::empty());
                }
            }
            fresh.push(copy);
            i += 1;
        }
        self.buffers = fresh;
        proof {
            self.sent@ = self.sent@.push(msg);
            let before = old(self)@;
            let after = self@;
            assert(after.unread =~= before.published(msg).unread);
            assert forall|k: int| 0 <= k < after.unread.len() implies #[trigger] buffer_ok(
                after,
                k,
            ) by {
                assert(buffer_ok(before, k));
                let b = before.unread[k];
                let total = before.sent.len() as int;
                if before.capacity == 0 {
                    assert(after.unread[k] =~= after.sent.subrange(total + 1, total + 1));
                } else if b.len() < before.capacity {
                    assert(after.unread[k] =~= after.sent.subrange(total - b.len(), total + 1));
                } else {
                    assert(after.unread[k] =~= after.sent.subrange(
                        total - b.len() + 1,
                        total + 1,
                    ));
                }
            }
        }
    }

    /// Publishes one message for each of `commits`, in their order.
    pub fn publish_commits(&mut self, commits: &Vec<HeadSlot>)
        requires
            old(self)@.wf(),
        ensures
            final(self)@.wf(),
            final(self)@ == old(self)@.published_all(commits@),
    {
        let n = commits.len();
        let mut i: usize = 0;
        proof {
            assert(commits@.take(0) =~= Seq::<HeadSlot>::empty());
        }
        while i < n
            invariant
                n == commits.len(),
                i <= n,
                self@.wf(),
                self@ == old(self)@.published_all(commits@.take(i as int)),
            decreases n - i,
        {
            let c = commits[i];
            proof {
                let next = commits@.take(i as int + 1);
                assert(next.drop_last() =~= commits@.take(i as int));
                assert(next.last() == c);
            }
            self.publish(Notification { height: c.height, root: c.root });
            i += 1;
        }
        proof {
            assert(commits@.take(n as int) =~= commits@);
        }
    }

    /// Hands the subscriber `id` its oldest unread message, if it has one.
    /// A message handed out is not handed out again.
    pub fn receive(&mut self, id: usize) -> (r: Option<Notification>)
        requires
            old(self)@.wf(),
        ensures
            final(self)@.wf(),
            r == if id < old(self)@.unread.len() && old(self)@.unread[id as int].len() > 0 {
                Some(old(self)@.unread[id as int][0])
            } else {
                None::<Notification>
            },
            final(self)@ == if r is Some {
                ChannelView {
                    unread: old(self)@.unread.update(
                        id as int,
                        old(self)@.unread[id as int].skip(1),
                    ),
                    ..old(self)@
                }
            } else {
                old(self)@
            },
    {
        if id >= self.buffers.len() {
            return None;
        }
        if self.buffers[id].len() == 0 {
            return None;
        }
        let mut taken: Vec<Notification> = Vec::new();
        std::mem::swap(&mut taken, &mut self.buffers[id]);
        let first = taken.remove(0);
        self.buffers[id] = taken;
        proof {
            let before = old(self)@;
            let after = self@;
            assert(after.unread =~= before.unread.update(id as int, before.unread[id as int].skip(1)));
            assert forall|k: int| 0 <= k < after.unread.len() implies #[trigger] buffer_ok(
                after,
                k,
            ) by {
                assert(buffer_ok(before, k));
                if k == id {
                    let b = before.unread[k];
                    let total = before.sent.len() as int;
                    assert(after.unread[k] =~= after.sent.subrange(total - b.len() + 1, total));
                }
            }
        }
        Some(first)
    }
}

} // verus!
