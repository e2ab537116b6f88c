use vstd::prelude::*;

verus! {

#[derive(Debug, Clone, Copy, PartialEq, Eq, Structural)]
pub enum MouseButton {
    Left,
    Right,
    Middle,
}

#[derive(Debug, Clone, Copy, PartialEq, Eq, Structural)]
pub enum KeyCode {
    Char(char),
    ArrowUp,
    ArrowDown,
    ArrowLeft,
    ArrowRight,
    Enter,
    Backspace,
    Tab,
    Escape,
    F1,
    F2,
    F3,
}

#[derive(Debug, Clone, Copy, PartialEq, Eq, Structural)]
pub enum Event {
    KeyPress(KeyCode),
    MouseMove { x: i16, y: i16 },
    MouseDown { x: i16, y: i16, button: MouseButton },
    MouseUp { x: i16, y: i16, button: MouseButton },
    Tick,
}

/// How many events the queue holds at most.
pub const QUEUE_SIZE: usize = 256;

/// The queue after `push(e)`: the event joins the back unless the queue is full.
pub open spec fn after_push(q: Seq<Event>, e: Event) -> Seq<Event> {
    if q.len() < QUEUE_SIZE {
        q.push(e)
    } else {
        q
    }
}

/// The queue after pushing `es` in order.
pub open spec fn push_all(q: Seq<Event>, es: Seq<Event>) -> Seq<Event>
    decreases es.len(),
{
    if es.len() == 0 {
        q
    } else {
        push_all(after_push(q, es[0]), es.drop_first())
    }
}

/// What `n` calls of `pop` return, in turn: the front event while there is one, then `None`.
pub open spec fn pops(q: Seq<Event>, n: nat) -> Seq<Option<Event>>
    decreases n,
{
    if n == 0 {
        Seq::empty()
    } else if q.len() == 0 {
        seq![None] + pops(q, (n - 1) as nat)
    } else {
        seq![Some(q[0])] + pops(q.drop_first(), (n - 1) as nat)
    }
}

/// First in, first out: events pushed onto a queue with room for them come
/// back from `pop` after the ones already queued, in the order they were
/// pushed, and then `pop` answers `None`.
pub proof fn law_queue_fifo(q: Seq<Event>, es: Seq<Event>)
    requires
        q.len() + es.len() <= QUEUE_SIZE,
    ensures
        push_all(q, es) == q + es,
        pops(q + es, (q.len() + es.len() + 1) as nat) == (q + es).map_values(|e: Event| Some(e)).push(None),
    decreases es.len(),
{
    if es.len() > 0 {
        law_queue_fifo(q.push(es[0]), es.drop_first());
        assert(q.push(es[0]) + es.drop_first() =~= q + es);
    }
    lemma_pops_all(q + es);
}

proof fn lemma_pops_all(q: Seq<Event>)
    ensures
        pops(q, (q.len() + 1) as nat) == q.map_values(|e: Event| Some(e)).push(None),
    decreases q.len(),
{
    if q.len() == 0 {
        assert(pops(q, 0) =~= Seq::<Option<Event>>::empty());
        assert(pops(q, 1) =~= q.map_values(|e: Event| Some(e)).push(None));
    } else {
        lemma_pops_all(q.drop_first());
        assert(pops(q, (q.len() + 1) as nat) =~= q.map_values(|e: Event| Some(e)).push(None));
    }
}

/// A bounded first-in first-out queue of GUI events, in a ring buffer.
pub struct EventQueue {
    buf: Vec<Option<Event>>,
    read_pos: usize,
    write_pos: usize,
    count: usize,
    queued: Ghost<Seq<Event>>,
}

impl View for EventQueue {
    type V = Seq<Event>;

    closed spec fn view(&self) -> Seq<Event> {
        self.queued@
    }
}

impl EventQueue {
    /// The ring buffer holds exactly the queued events, oldest at `read_pos`.
    pub closed spec fn wf(&self) -> bool {
        &&& self.buf@.len() == QUEUE_SIZE
        &&& self.read_pos < QUEUE_SIZE
        &&& self.write_pos < QUEUE_SIZE
        &&& self.count <= QUEUE_SIZE
        &&& self.count == self.queued@.len()
        &&& self.write_pos == (self.read_pos + self.count) % (QUEUE_SIZE as int)
        &&& forall|i: int|
            0 <= i < self.count ==> #[trigger] self.buf@[(self.read_pos + i) % (QUEUE_SIZE as int)]
                == Some(self.queued@[i])
    }

    pub fn new() -> (q: EventQueue)
        ensures
            q.wf(),
            q@ == Seq::<Event>::empty(),
    {
        EventQueue {
            buf: vec![None; QUEUE_SIZE],
            read_pos: 0,
            write_pos: 0,
            count: 0,
            queued: Ghost(Seq::empty()),
        }
    }

    /// Appends an event; a full queue drops it.
    pub fn push(&mut self, event: Event)
        requires
            old(self).wf(),
        ensures
            final(self).wf(),
            final(self)@ == after_push(old(self)@, event),
    {
        if self.count < QUEUE_SIZE {
            let ghost old_q = self.queued@;
            let ghost rp = self.read_pos as int;
            let wp = self.write_pos;
            self.buf.set(wp, Some(event));
            self.write_pos = (self.write_pos + 1) % QUEUE_SIZE;
            self.count = self.count + 1;
            self.queued = Ghost(old_q.push(event));
            assert forall|i: int| 0 <= i < self.count implies #[trigger] self.buf@[(
            self.read_pos + i) % (QUEUE_SIZE as int)] == Some(self.queued@[i]) by {
                if i < self.count - 1 {
                    assert((rp + i) % 256 != wp as int);
                }
            }
        }
    }

    /// Takes the oldest event.
    pub fn pop(&mut self) -> (r: Option<Event>)
        requires
            old(self).wf(),
        ensures
            final(self).wf(),
            r == pops(old(self)@, 1)[0],
            old(self)@.len() == 0 ==> r is None && final(self)@ == old(self)@,
            old(self)@.len() > 0 ==> r == Some(old(self)@[0]) && final(self)@ == old(self)@.drop_first(),
    {
        if self.count == 0 {
            return None;
        }
        let ghost old_q = self.queued@;
        let rp = self.read_pos;
        assert(self.buf@[(rp + 0) % 256] == Some(old_q[0]));
        let event = self.buf[rp];
        self.buf.set(rp, None);
        self.read_pos = (self.read_pos + 1) % QUEUE_SIZE;
        self.count = self.count - 1;
        self.queued = Ghost(old_q.drop_first());
        assert forall|i: int| 0 <= i < self.count implies #[trigger] self.buf@[(self.read_pos
            + i) % (QUEUE_SIZE as int)] == Some(self.queued@[i]) by {
            assert((rp + 1 + i) % 256 == ((rp + 1) % 256 + i) % 256);
            assert(old_q.drop_first()[i] == old_q[i + 1]);
            assert(self.buf@[(rp + (i + 1)) % 256] == old(self).buf@[(rp + (i + 1)) % 256]);
        }
        event
    }
}

} // verus!
