//! Key-input state: which tracked keys are down, and whether the current
//! frame is the first one of a press.
//!
//! The host's event layer decodes its windowing events into plain
//! [`KeyEvent`] values (a key id and, for presses, the time in
//! milliseconds); this module holds the state machine those events
//! drive.  Only keys registered up front are tracked; events for other
//! keys are ignored.

use vstd::prelude::*;

verus! {

/// Per-key input state.
#[derive(Clone, Copy, PartialEq, Eq, Debug)]
pub struct KeyParam {
    /// When the key was first pressed (milliseconds since the host loop
    /// started); `None` while the key is released.
    pub time_pressed: Option<u64>,
    /// Whether the key is currently held down.
    pub pressed: bool,
    /// Whether this is the first frame of the current press; cleared on
    /// the following press event.
    pub triggered: bool,
}

/// The state of a key that is up: not pressed, not triggered, no press
/// time.
pub open spec fn released_key() -> KeyParam {
    KeyParam { time_pressed: None, pressed: false, triggered: false }
}

impl Default for KeyParam {
    /// A released key: not pressed, not triggered, no press time.
    fn default() -> (k: Self)
        ensures
            k == released_key(),
    {
        KeyParam { time_pressed: None, pressed: false, triggered: false }
    }
}

impl KeyParam {
    /// The state after a press event at time `now`: a released key
    /// becomes pressed and triggered with its press time recorded; a key
    /// already down merely loses its triggered flag.
    pub open spec fn after_press(self, now: u64) -> KeyParam {
        if !self.pressed {
            KeyParam { time_pressed: Some(now), pressed: true, triggered: true }
        } else {
            KeyParam { triggered: false, ..self }
        }
    }

    /// The state after a release event: a pressed key is fully cleared;
    /// a key already up is left alone.
    pub open spec fn after_release(self) -> KeyParam {
        if self.pressed {
            KeyParam { time_pressed: None, pressed: false, triggered: false }
        } else {
            self
        }
    }

    /// Apply a press event.
    pub fn press(&mut self, now: u64)
        ensures
            *final(self) == old(self).after_press(now),
    {
        if !self.pressed {
            self.pressed = true;
            self.triggered = true;
            self.time_pressed = Some(now);
        } else {
            self.triggered = false;
        }
    }

    /// Apply a release event.
    pub fn release(&mut self)
        ensures
            *final(self) == old(self).after_release(),
    {
        if self.pressed {
            self.pressed = false;
            self.triggered = false;
            self.time_pressed = None;
        }
    }
}

/// A key event, already decoded to plain values by the host's event
/// layer.
pub enum KeyEvent {
    /// The key went down (or auto-repeated) at `now` milliseconds.
    Pressed { key: u64, now: u64 },
    /// The key went up.
    Released { key: u64 },
}

/// The set of keys the application watches, with each key's state.
pub struct InputGameState {
    keys: Vec<(u64, KeyParam)>,
}

impl InputGameState {
    /// The tracked keys and their states, in registration order.
    pub closed spec fn keys(self) -> Seq<(u64, KeyParam)> {
        self.keys@
    }

    /// True iff key id `k` is tracked.
    pub open spec fn tracks(self, k: u64) -> bool {
        exists|i: int| 0 <= i < self.keys().len() && (#[trigger] self.keys()[i]).0 == k
    }

    /// Where key id `k` sits in the list (meaningful when tracked; well
    /// defined because ids are registered at most once).
    pub open spec fn key_index(self, k: u64) -> int {
        choose|i: int| 0 <= i < self.keys().len() && (#[trigger] self.keys()[i]).0 == k
    }

    /// The state of tracked key `k`.
    pub open spec fn key_state(self, k: u64) -> KeyParam {
        self.keys()[self.key_index(k)].1
    }

    /// No key id is registered twice.
    pub open spec fn wf(self) -> bool {
        forall|i: int, j: int|
            0 <= i < self.keys().len() && 0 <= j < self.keys().len() && i != j ==> (
            #[trigger] self.keys()[i]).0 != (#[trigger] self.keys()[j]).0
    }

    /// When position `i` holds key id `k`, that position is the one
    /// `key_index` names.
    pub proof fn lemma_key_index_of(self, k: u64, i: int)
        requires
            self.wf(),
            0 <= i < self.keys().len(),
            self.keys()[i].0 == k,
        ensures
            self.tracks(k),
            self.key_index(k) == i,
    {
        assert(self.tracks(k));
        let j = self.key_index(k);
        assert(0 <= j < self.keys().len() && self.keys()[j].0 == k);
    }

    /// An input state tracking no keys.
    pub fn new() -> (s: Self)
        ensures
            s.wf(),
            s.keys() == Seq::<(u64, KeyParam)>::empty(),
    {
        InputGameState { keys: Vec::new() }
    }

    /// Start tracking key id `k`, initially released; a no-op when `k`
    /// is already tracked.
    pub fn track_key(&mut self, k: u64)
        requires
            old(self).wf(),
        ensures
            final(self).wf(),
            final(self).tracks(k),
            forall|u: u64| u != k ==> #[trigger] final(self).tracks(u) == old(self).tracks(u),
            forall|u: u64|
                u != k && old(self).tracks(u) ==> #[trigger] final(self).key_state(u) == old(
                    self,
                ).key_state(u),
            old(self).tracks(k) ==> *final(self) == *old(self),
            !old(self).tracks(k) ==> final(self).key_state(k) == released_key(),
    {
        let ghost s0 = *self;
        match self.find_key(k) {
            Some(_) => {},
            None => {
                self.keys.push((k, KeyParam::default()));
                proof {
                    let n = s0.keys().len() as int;
                    assert(self.keys()[n].0 == k);
                    s0.lemma_push_key(*self, k);
                    self.lemma_key_index_of(k, n);
                }
            },
        }
    }

    /// Pushing a new key id leaves every other id's presence and state
    /// unchanged, and keeps ids distinct.
    proof fn lemma_push_key(self, other: InputGameState, k: u64)
        requires
            self.wf(),
            !self.tracks(k),
            other.keys() == self.keys().push((k, released_key())),
            other.keys()[self.keys().len() as int].0 == k,
        ensures
            other.wf(),
            forall|u: u64| u != k ==> #[trigger] other.tracks(u) == self.tracks(u),
            forall|u: u64|
                u != k && self.tracks(u) ==> #[trigger] other.key_state(u) == self.key_state(u),
    {
        let n = self.keys().len() as int;
        assert forall|i: int, j: int|
            0 <= i < other.keys().len() && 0 <= j < other.keys().len() && i != j implies (
        #[trigger] other.keys()[i]).0 != (#[trigger] other.keys()[j]).0 by {
            if i < n && j < n {
                assert(self.keys()[i].0 != self.keys()[j].0);
            } else if i == n {
                assert(other.keys()[j] == self.keys()[j]);
                if self.keys()[j].0 == k {
                    assert(self.tracks(k));
                }
            } else {
                assert(other.keys()[i] == self.keys()[i]);
                if self.keys()[i].0 == k {
                    assert(self.tracks(k));
                }
            }
        }
        assert forall|u: u64| u != k implies #[trigger] other.tracks(u) == self.tracks(u) by {
            if self.tracks(u) {
                let i = self.key_index(u);
                assert(other.keys()[i].0 == u);
            }
            if other.tracks(u) {
                let i = other.key_index(u);
                assert(0 <= i < other.keys().len() && other.keys()[i].0 == u);
                assert(i != n);
                assert(self.keys()[i].0 == u);
            }
        }
        assert forall|u: u64| u != k && self.tracks(u) implies #[trigger] other.key_state(u)
            == self.key_state(u) by {
            let i = self.key_index(u);
            assert(other.keys()[i].0 == u);
            let j = other.key_index(u);
            assert(0 <= j < other.keys().len() && other.keys()[j].0 == u);
            assert(j != n);
            assert(self.keys()[j].0 == u);
        }
    }

    /// Where key id `k` sits in the list, if it is tracked.
    fn find_key(&self, k: u64) -> (r: Option<usize>)
        requires
            self.wf(),
        ensures
            match r {
                Some(i) => self.tracks(k) && i == self.key_index(k),
                None => !self.tracks(k),
            },
    {
        let n = self.keys.len();
        let mut i: usize = 0;
        while i < n
            invariant
                i <= n,
                n == self.keys().len(),
                self.wf(),
                forall|j: int| 0 <= j < i ==> (#[trigger] self.keys()[j]).0 != k,
            decreases n - i,
        {
            if self.keys[i].0 == k {
                proof {
                    self.lemma_key_index_of(k, i as int);
                }
                return Some(i);
            }
            i += 1;
        }
        None
    }

    /// Feed one decoded key event into the state: a tracked key takes
    /// the press/release transition; events for untracked keys are
    /// ignored.
    pub fn register_inputs(&mut self, event: &KeyEvent)
        requires
            old(self).wf(),
        ensures
            final(self).wf(),
            forall|u: u64| #[trigger] final(self).tracks(u) == old(self).tracks(u),
            match *event {
                KeyEvent::Pressed { key, now } => {
                    &&& old(self).tracks(key) ==> final(self).key_state(key) == old(
                        self,
                    ).key_state(key).after_press(now)
                    &&& !old(self).tracks(key) ==> *final(self) == *old(self)
                    &&& forall|u: u64|
                        u != key && old(self).tracks(u) ==> #[trigger] final(self).key_state(u)
                            == old(self).key_state(u)
                },
                KeyEvent::Released { key } => {
                    &&& old(self).tracks(key) ==> final(self).key_state(key) == old(
                        self,
                    ).key_state(key).after_release()
                    &&& !old(self).tracks(key) ==> *final(self) == *old(self)
                    &&& forall|u: u64|
                        u != key && old(self).tracks(u) ==> #[trigger] final(self).key_state(u)
                            == old(self).key_state(u)
                },
            },
    {
        let ghost s0 = *self;
        let (key, press_time) = match event {
            KeyEvent::Pressed { key, now } => (*key, Some(*now)),
            KeyEvent::Released { key } => (*key, None),
        };
        match self.find_key(key) {
            None => {},
            Some(i) => {
                let entry = &mut self.keys[i];
                match press_time {
                    Some(now) => entry.1.press(now),
                    None => entry.1.release(),
                }
                proof {
                    s0.lemma_update_key(*self, i as int, key);
                }
            },
        }
    }

    /// Updating the state at one position (keeping its id) leaves every
    /// other id's presence and state unchanged.
    proof fn lemma_update_key(self, other: InputGameState, i: int, k: u64)
        requires
            self.wf(),
            0 <= i < self.keys().len(),
            self.keys()[i].0 == k,
            other.keys() == self.keys().update(i, other.keys()[i]),
            other.keys()[i].0 == k,
        ensures
            other.wf(),
            forall|u: u64| #[trigger] other.tracks(u) == self.tracks(u),
            forall|u: u64|
                u != k && self.tracks(u) ==> #[trigger] other.key_state(u) == self.key_state(u),
            other.key_state(k) == other.keys()[i].1,
    {
        assert forall|u: u64| #[trigger] other.tracks(u) == self.tracks(u) by {
            if self.tracks(u) {
                let j = self.key_index(u);
                assert(other.keys()[j].0 == u);
            }
            if other.tracks(u) {
                let j = other.key_index(u);
                assert(0 <= j < other.keys().len() && other.keys()[j].0 == u);
                assert(self.keys()[j].0 == u);
            }
        }
        assert forall|u: u64| u != k && self.tracks(u) implies #[trigger] other.key_state(u)
            == self.key_state(u) by {
            let j = self.key_index(u);
            assert(j != i);
            assert(other.keys()[j].0 == u);
            let l = other.key_index(u);
            assert(0 <= l < other.keys().len() && other.keys()[l].0 == u);
            assert(self.keys()[l].0 == u);
            assert(l == j);
        }
        other.lemma_key_index_of(k, i);
    }

    /// Whether tracked key `k` is currently held down; `false` for an
    /// untracked key.
    pub fn is_key_pressed(&self, k: u64) -> (r: bool)
        requires
            self.wf(),
        ensures
            r == (self.tracks(k) && self.key_state(k).pressed),
    {
        match self.find_key(k) {
            Some(i) => self.keys[i].1.pressed,
            None => false,
        }
    }
}

} // verus!
