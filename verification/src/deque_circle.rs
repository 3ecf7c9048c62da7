//! The ring kept in a double-ended queue whose front is the current marble:
//! a marble goes in or out at the front, after the queue has been turned
//! until the right marble is there.

use vstd::prelude::*;
use std::collections::VecDeque;
use crate::circle::{normalize, CircularSequence, Ring};
use crate::error::GameError;

verus! {

/// Ring order recovered from queue order. The queue starts at the current
/// marble, which has place `front` in the ring: the last `front` marbles of
/// the queue are the ones before it.
pub open spec fn ring_order(queue: Seq<u32>, front: int) -> Seq<u32> {
    queue.subrange(queue.len() - front, queue.len() as int) + queue.subrange(
        0,
        queue.len() - front,
    )
}

/// Moving the front marble to the back is one step clockwise.
proof fn lemma_step_forward(queue: Seq<u32>, front: int)
    requires
        0 <= front < queue.len(),
    ensures
        ring_order(
            queue.subrange(1, queue.len() as int).push(queue[0]),
            if front + 1 == queue.len() {
                0
            } else {
                front + 1
            },
        ) == ring_order(queue, front),
{
    let turned = queue.subrange(1, queue.len() as int).push(queue[0]);
    let place = if front + 1 == queue.len() {
        0
    } else {
        front + 1
    };
    assert(ring_order(turned, place) =~= ring_order(queue, front));
}

/// Moving the back marble to the front is one step counter-clockwise.
proof fn lemma_step_backward(queue: Seq<u32>, front: int)
    requires
        0 <= front < queue.len(),
    ensures
        ring_order(
            seq![queue[queue.len() - 1]] + queue.subrange(0, queue.len() - 1),
            if front == 0 {
                queue.len() - 1
            } else {
                front - 1
            },
        ) == ring_order(queue, front),
{
    let turned = seq![queue[queue.len() - 1]] + queue.subrange(0, queue.len() - 1);
    let place = if front == 0 {
        queue.len() - 1
    } else {
        front - 1
    };
    assert(ring_order(turned, place) =~= ring_order(queue, front));
}

/// A marble pushed on the front enters the ring at the place of the front.
proof fn lemma_push_front(queue: Seq<u32>, front: int, value: u32)
    requires
        0 <= front < queue.len(),
    ensures
        ring_order(seq![value] + queue, front) == ring_order(queue, front).insert(front, value),
{
    assert(ring_order(seq![value] + queue, front) =~= ring_order(queue, front).insert(
        front,
        value,
    ));
}

/// The marble popped off the front leaves the ring at the place of the front,
/// and the marble behind it takes that place.
proof fn lemma_pop_front(queue: Seq<u32>, front: int)
    requires
        0 <= front < queue.len(),
    ensures
        queue[0] == ring_order(queue, front)[front],
        ring_order(
            queue.subrange(1, queue.len() as int),
            if front + 1 < queue.len() {
                front
            } else {
                0
            },
        ) == ring_order(queue, front).remove(front),
{
    let rest = queue.subrange(1, queue.len() as int);
    let place = if front + 1 < queue.len() {
        front
    } else {
        0
    };
    assert(ring_order(rest, place) =~= ring_order(queue, front).remove(front));
}

/// A ring held as a queue in clockwise order from the current marble, with
/// the place that the current marble has in the ring.
pub struct DequeCircle {
    marbles: VecDeque<u32>,
    front: usize,
}

impl DequeCircle {
    /// Turns the queue one step clockwise.
    fn step_forward(&mut self)
        requires
            old(self).wf(),
            old(self).marbles@.len() > 0,
        ensures
            final(self).wf(),
            final(self).marbles@.len() == old(self).marbles@.len(),
            final(self).ring().marbles == old(self).ring().marbles,
            final(self).front == if old(self).front + 1 == old(self).marbles@.len() {
                0
            } else {
                old(self).front + 1
            },
    {
        let length: usize = self.marbles.len();
        proof {
            lemma_step_forward(self.marbles@, self.front as int);
        }
        match self.marbles.pop_front() {
            Some(marble) => {
                self.marbles.push_back(marble);
            },
            None => {},
        }
        self.front = if self.front + 1 == length {
            0
        } else {
            self.front + 1
        };
    }

    /// Turns the queue one step counter-clockwise.
    fn step_backward(&mut self)
        requires
            old(self).wf(),
            old(self).marbles@.len() > 0,
        ensures
            final(self).wf(),
            final(self).marbles@.len() == old(self).marbles@.len(),
            final(self).ring().marbles == old(self).ring().marbles,
            final(self).front == if old(self).front == 0 {
                old(self).marbles@.len() - 1
            } else {
                old(self).front - 1
            },
    {
        let length: usize = self.marbles.len();
        proof {
            lemma_step_backward(self.marbles@, self.front as int);
        }
        match self.marbles.pop_back() {
            Some(marble) => {
                self.marbles.push_front(marble);
            },
            None => {},
        }
        self.front = if self.front == 0 {
            length - 1
        } else {
            self.front - 1
        };
    }

    /// Turns the queue, the shorter way round, until the marble in place `at`
    /// of the ring is at the front.
    fn rotate_to(&mut self, at: usize)
        requires
            old(self).wf(),
            at < old(self).marbles@.len(),
        ensures
            final(self).wf(),
            final(self).marbles@.len() == old(self).marbles@.len(),
            final(self).ring().marbles == old(self).ring().marbles,
            final(self).front == at,
    {
        let length: usize = self.marbles.len();
        let forward: usize = if at >= self.front {
            at - self.front
        } else {
            length - (self.front - at)
        };
        let backward: usize = length - forward;
        if forward <= backward {
            let mut left: usize = forward;
            while left > 0
                invariant
                    self.wf(),
                    self.marbles@.len() == length,
                    self.ring().marbles == old(self).ring().marbles,
                    at < length,
                    left <= length,
                    at == if self.front + left >= length {
                        self.front + left - length
                    } else {
                        self.front + left
                    },
                decreases left,
            {
                self.step_forward();
                left = left - 1;
            }
        } else {
            let mut left: usize = backward;
            while left > 0
                invariant
                    self.wf(),
                    self.marbles@.len() == length,
                    self.ring().marbles == old(self).ring().marbles,
                    at < length,
                    left <= length,
                    at == if self.front >= left {
                        self.front - left
                    } else {
                        self.front + length - left
                    },
                decreases left,
            {
                self.step_backward();
                left = left - 1;
            }
        }
    }
}

impl CircularSequence for DequeCircle {
    closed spec fn ring(&self) -> Ring {
        Ring { marbles: ring_order(self.marbles@, self.front as int), cursor: self.front as int }
    }

    closed spec fn wf(&self) -> bool {
        if self.marbles@.len() == 0 {
            self.front == 0
        } else {
            self.front < self.marbles@.len()
        }
    }

    proof fn lemma_ring_wf(&self) {
    }

    fn new() -> (s: Self) {
        let s = DequeCircle { marbles: VecDeque::new(), front: 0 };
        assert(ring_order(s.marbles@, 0) =~= Seq::<u32>::empty());
        s
    }

    fn len(&self) -> (n: usize) {
        self.marbles.len()
    }

    fn cursor(&self) -> (c: usize) {
        self.front
    }

    fn snapshot(&self) -> (v: Vec<u32>) {
        let length: usize = self.marbles.len();
        let mut v: Vec<u32> = Vec::new();
        let mut place: usize = 0;
        while place < length
            invariant
                self.wf(),
                length == self.marbles@.len(),
                place <= length,
                v@ == ring_order(self.marbles@, self.front as int).subrange(0, place as int),
            decreases length - place,
        {
            let index: usize = if place < self.front {
                length - self.front + place
            } else {
                place - self.front
            };
            v.push(self.marbles[index]);
            place = place + 1;
            assert(v@ =~= ring_order(self.marbles@, self.front as int).subrange(0, place as int));
        }
        assert(v@ =~= ring_order(self.marbles@, self.front as int));
        v
    }

    fn reserve(&mut self, additional: usize) {
        self.marbles.reserve(additional);
    }

    fn insert_at_offset(&mut self, offset: i64, value: u32) {
        let length: usize = self.marbles.len();
        if length == 0 {
            self.marbles.push_front(value);
            self.front = 0;
            assert(ring_order(self.marbles@, 0) =~= seq![value]);
        } else {
            let at: usize = normalize(self.front, offset, length);
            self.rotate_to(at);
            proof {
                lemma_push_front(self.marbles@, at as int, value);
            }
            self.marbles.push_front(value);
        }
    }

    fn remove_at_offset(&mut self, offset: i64) -> (r: Result<u32, GameError>) {
        let length: usize = self.marbles.len();
        if length == 0 {
            return Err(GameError::EmptySequence);
        }
        let at: usize = normalize(self.front, offset, length);
        self.rotate_to(at);
        proof {
            lemma_pop_front(self.marbles@, at as int);
        }
        let taken: Option<u32> = self.marbles.pop_front();
        self.front = if at + 1 < length {
            at
        } else {
            0
        };
        match taken {
            Some(marble) => Ok(marble),
            None => Err(GameError::EmptySequence),
        }
    }
}

} // verus!
