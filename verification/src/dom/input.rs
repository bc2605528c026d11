//! Keyboard and mouse input seen by a canvas while it holds the pointer lock:
//! which keys are down and how far the mouse has moved, and what the event
//! listener does with each event.

use crate::dom::Key;
use vstd::prelude::*;

verus! {

/// A DOM input event, as far as the input state reads it.
pub enum InputEvent {
    /// A mouse event (a wheel event among them), with its movement.
    Mouse { movement_x: i32, movement_y: i32 },
    /// A keyboard event: its type (such as `keydown`) and its key.
    Keyboard { event_type: String, key: Key },
    /// Any other event.
    Other,
}

/// The keys held down, each once, and the mouse movement summed.
pub struct InputState {
    keys: Vec<Key>,
    mouse_pos: (i32, i32),
}

/// No two of `keys` have the same name.
pub open spec fn distinct_keys(keys: Seq<Key>) -> bool {
    forall|i: int, j: int| 0 <= i < keys.len() && 0 <= j < keys.len() && i != j ==> (#[trigger] keys[i])@ != (#[trigger] keys[j])@
}

impl InputState {
    #[verifier::type_invariant]
    spec fn keys_once(&self) -> bool {
        distinct_keys(self.keys@)
    }

    /// The names of the keys held down.
    pub closed spec fn keys_down(&self) -> Set<Seq<char>> {
        Set::new(|name: Seq<char>| exists|i: int| 0 <= i < self.keys@.len() && (#[trigger] self.keys@[i])@ == name)
    }

    /// The mouse movement summed.
    pub closed spec fn spec_mouse_pos(&self) -> (i32, i32) {
        self.mouse_pos
    }

    /// No key down, and no movement.
    pub fn new() -> (r: InputState)
        ensures
            r.keys_down() == Set::<Seq<char>>::empty(),
            r.spec_mouse_pos() == (0i32, 0i32),
    {
        let r = InputState { keys: Vec::new(), mouse_pos: (0, 0) };
        assert(r.keys_down() =~= Set::<Seq<char>>::empty());
        r
    }

    /// The position in `keys` of the key named like `key`, if any.
    fn find(&self, key: &Key) -> (r: Option<usize>)
        ensures
            match r {
                Some(i) => i < self.keys@.len() && self.keys@[i as int]@ == key@,
                None => forall|i: int| 0 <= i < self.keys@.len() ==> (#[trigger] self.keys@[i])@ != key@,
            },
    {
        let mut i: usize = 0;
        while i < self.keys.len()
            invariant
                i <= self.keys@.len(),
                forall|j: int| 0 <= j < i ==> (#[trigger] self.keys@[j])@ != key@,
            decreases self.keys@.len() - i,
        {
            if *self.keys[i].name_string() == *key.name_string() {
                return Some(i);
            }
            i += 1;
        }
        None
    }

    /// Updates the state with one event: a mouse event adds its movement, a
    /// `keydown` puts its key down and a `keyup` lifts it; other events change
    /// nothing.
    pub fn apply_event(&mut self, ev: &InputEvent)
        requires
            match *ev {
                InputEvent::Mouse { movement_x, movement_y } => {
                    &&& i32::MIN <= old(self).spec_mouse_pos().0 + movement_x <= i32::MAX
                    &&& i32::MIN <= old(self).spec_mouse_pos().1 + movement_y <= i32::MAX
                },
                _ => true,
            },
        ensures
            match *ev {
                InputEvent::Mouse { movement_x, movement_y } => {
                    &&& final(self).spec_mouse_pos().0 == old(self).spec_mouse_pos().0 + movement_x
                    &&& final(self).spec_mouse_pos().1 == old(self).spec_mouse_pos().1 + movement_y
                    &&& final(self).keys_down() == old(self).keys_down()
                },
                InputEvent::Keyboard { event_type, key } => {
                    &&& final(self).spec_mouse_pos() == old(self).spec_mouse_pos()
                    &&& final(self).keys_down() == if event_type@ == "keydown"@ {
                        old(self).keys_down().insert(key@)
                    } else if event_type@ == "keyup"@ {
                        old(self).keys_down().remove(key@)
                    } else {
                        old(self).keys_down()
                    }
                },
                InputEvent::Other => final(self).keys_down() == old(self).keys_down()
                    && final(self).spec_mouse_pos() == old(self).spec_mouse_pos(),
            },
    {
        proof {
            use_type_invariant(&*self);
        }
        match ev {
            InputEvent::Mouse { movement_x, movement_y } => {
                self.mouse_pos = (self.mouse_pos.0 + *movement_x, self.mouse_pos.1 + *movement_y);
            },
            InputEvent::Keyboard { event_type, key } => {
                let keydown = String::from_str("keydown");
                let keyup = String::from_str("keyup");
                if *event_type == keydown {
                    match self.find(key) {
                        Some(_) => {},
                        None => {
                            let ghost before = self.keys@;
                            let k = key.clone_key();
                            let mut keys: Vec<Key> = Vec::new();
                            std::mem::swap(&mut keys, &mut self.keys);
                            keys.push(k);
                            proof {
                                assert forall|i: int, j: int| 0 <= i < keys@.len() && 0 <= j < keys@.len() && i != j implies (#[trigger] keys@[i])@ != (#[trigger] keys@[j])@ by {
                                    if i < before.len() && j < before.len() {
                                        assert(keys@[i] == before[i] && keys@[j] == before[j]);
                                    } else if i < before.len() {
                                        assert(keys@[i] == before[i]);
                                    } else {
                                        assert(keys@[j] == before[j]);
                                    }
                                }
                            }
                            self.keys = keys;
                            proof {
                                assert(self.keys@ == before.push(k));
                                assert(self.keys_down() =~= Set::new(
                                    |name: Seq<char>| exists|i: int| 0 <= i < before.len() && (#[trigger] before[i])@ == name,
                                ).insert(key@)) by {
                                    assert forall|name: Seq<char>| #[trigger] self.keys_down().contains(name) <==> (exists|i: int| 0 <= i < before.len() && (#[trigger] before[i])@ == name) || name == key@ by {
                                        if exists|i: int| 0 <= i < before.len() && (#[trigger] before[i])@ == name {
                                            let i = choose|i: int| 0 <= i < before.len() && (#[trigger] before[i])@ == name;
                                            assert(self.keys@[i] == before[i]);
                                        }
                                        if name == key@ {
                                            assert(self.keys@[before.len() as int]@ == name);
                                        }
                                    }
                                }
                            }
                        },
                    }
                } else if *event_type == keyup {
                    match self.find(key) {
                        Some(i) => {
                            let ghost before = self.keys@;
                            let mut keys: Vec<Key> = Vec::new();
                            std::mem::swap(&mut keys, &mut self.keys);
                            keys.remove(i);
                            proof {
                                assert forall|a: int, b: int| 0 <= a < keys@.len() && 0 <= b < keys@.len() && a != b implies (#[trigger] keys@[a])@ != (#[trigger] keys@[b])@ by {
                                    let a2 = if a < i { a } else { a + 1 };
                                    let b2 = if b < i { b } else { b + 1 };
                                    assert(keys@[a] == before[a2] && keys@[b] == before[b2]);
                                }
                            }
                            self.keys = keys;
                            proof {
                                assert(self.keys@ == before.remove(i as int));
                                assert forall|name: Seq<char>| #[trigger] self.keys_down().contains(name) <==> (exists|j: int| 0 <= j < before.len() && (#[trigger] before[j])@ == name) && name != key@ by {
                                    if self.keys_down().contains(name) {
                                        let j = choose|j: int| 0 <= j < self.keys@.len() && (#[trigger] self.keys@[j])@ == name;
                                        if j < i {
                                            assert(self.keys@[j] == before[j]);
                                            assert(before[j]@ != before[i as int]@);
                                        } else {
                                            assert(self.keys@[j] == before[j + 1]);
                                            assert(before[j + 1]@ != before[i as int]@);
                                        }
                                    }
                                    if (exists|j: int| 0 <= j < before.len() && (#[trigger] before[j])@ == name) && name != key@ {
                                        let j = choose|j: int| 0 <= j < before.len() && (#[trigger] before[j])@ == name;
                                        if j < i {
                                            assert(self.keys@[j] == before[j]);
                                        } else {
                                            assert(j != i);
                                            assert(self.keys@[j - 1] == before[j]);
                                        }
                                    }
                                }
                            }
                        },
                        None => {
                            proof {
                                assert(self.keys_down() =~= self.keys_down().remove(key@));
                            }
                        },
                    }
                }
            },
            InputEvent::Other => {},
        }
    }

    /// The key named like `key` is down.
    pub fn is_key_down(&self, key: &Key) -> (r: bool)
        ensures
            r == self.keys_down().contains(key@),
    {
        match self.find(key) {
            Some(i) => true,
            None => false,
        }
    }

    /// The mouse movement summed.
    pub fn mouse_pos(&self) -> (r: (i32, i32))
        ensures
            r == self.spec_mouse_pos(),
    {
        self.mouse_pos
    }
}

/// What the canvas's event listener does with one event.
pub struct ListenerAction {
    /// Stop the browser's default handling of the event.
    pub prevent_default: bool,
    /// Apply the event to the input state.
    pub apply: bool,
    /// Ask for the pointer lock.
    pub request_pointer_lock: bool,
}

/// Decides what the listener does with an event of type `event_type`: while
/// the canvas holds the pointer lock, every event is applied, and all but
/// wheel events lose their default handling; otherwise a `mousedown` asks for
/// the lock, and nothing else happens.
pub fn listener_action(locked_to_target: bool, event_type: &str) -> (r: ListenerAction)
    ensures
        r.apply == locked_to_target,
        r.prevent_default == (locked_to_target && event_type@ != "wheel"@),
        r.request_pointer_lock == (!locked_to_target && event_type@ == "mousedown"@),
{
    let ty = String::from_str(event_type);
    if locked_to_target {
        let wheel = String::from_str("wheel");
        ListenerAction { prevent_default: !(ty == wheel), apply: true, request_pointer_lock: false }
    } else {
        let mousedown = String::from_str("mousedown");
        ListenerAction { prevent_default: false, apply: false, request_pointer_lock: ty == mousedown }
    }
}

/// Releasing a key after pressing it leaves the other keys as they were and
/// that key up: a `keydown` then a `keyup` of one key change the keys down
/// as a `keyup` alone does.
pub proof fn lemma_keyup_undoes_keydown(keys_down: Set<Seq<char>>, key: Seq<char>)
    ensures
        keys_down.insert(key).remove(key) == keys_down.remove(key),
        !keys_down.insert(key).remove(key).contains(key),
{
    assert(keys_down.insert(key).remove(key) =~= keys_down.remove(key));
}

} // verus!
