//! The mode after `g` or `G`: the next direction key makes every caret jump
//! to the start or end of the document or of its line.

use crate::buffer::BuffersView;
use crate::buffer::Buffers;
use crate::keymap::{bound_action, Event, KeyCode, KeyEvent, KeyMap};
use crate::modes::mode::{layout_kept, options_kept, Mode, ModeTransition, RegionMap};
use crate::selection::Direction;
use crate::view::view_options::ViewOptions;
use vstd::prelude::*;

verus! {

/// Waits for the direction of a jump; with `extend`, the tails stay where
/// they are.
#[derive(Debug, PartialEq, Eq, Clone, Copy, Structural)]
pub struct JumpTo {
    pub extend: bool,
}

/// The direction keys: the arrows and `h`, `j`, `k`, `l`.
pub open spec fn bindings() -> Seq<(KeyEvent, Direction)> {
    seq![
        (KeyEvent::key(KeyCode::Left), Direction::Left),
        (KeyEvent::plain('h'), Direction::Left),
        (KeyEvent::key(KeyCode::Down), Direction::Down),
        (KeyEvent::plain('j'), Direction::Down),
        (KeyEvent::key(KeyCode::Up), Direction::Up),
        (KeyEvent::plain('k'), Direction::Up),
        (KeyEvent::key(KeyCode::Right), Direction::Right),
        (KeyEvent::plain('l'), Direction::Right),
    ]
}

pub fn default_maps() -> (r: KeyMap<Direction>)
    ensures
        r.maps@ == bindings(),
{
    let mut map = KeyMap::new();
    map.key(KeyCode::Left, Direction::Left);
    map.plain('h', Direction::Left);
    map.key(KeyCode::Down, Direction::Down);
    map.plain('j', Direction::Down);
    map.key(KeyCode::Up, Direction::Up);
    map.plain('k', Direction::Up);
    map.key(KeyCode::Right, Direction::Right);
    map.plain('l', Direction::Right);
    assert(map.maps@ =~= bindings());
    map
}

impl JumpTo {
    pub fn name(&self) -> (r: String)
        ensures
            r@ == if self.extend {
                "EXTEND"@
            } else {
                "JUMP"@
            },
    {
        if self.extend {
            "EXTEND".to_owned()
        } else {
            "JUMP".to_owned()
        }
    }

    /// The jump that a direction stands for in this mode.
    pub open spec fn jump(self, direction: Direction) -> RegionMap {
        if self.extend {
            RegionMap::ExtendBoundary(direction)
        } else {
            RegionMap::JumpBoundary(direction)
        }
    }

    /// What the mode answers to an event: on a direction key the jump is
    /// made in the current buffer and the mode ends; on any other key the
    /// mode ends; what is no key is not for this mode.
    pub open spec fn answers(
        self,
        event: Event,
        before: BuffersView,
        options_before: ViewOptions,
        r: ModeTransition,
        after: BuffersView,
        options_after: ViewOptions,
    ) -> bool {
        match bound_action(bindings(), event) {
            Some(direction) => {
                &&& r == ModeTransition::Pop
                &&& after.current == before.current
                &&& after.list == before.list.update(
                    before.current,
                    self.jump(direction).moved(
                        before.list[before.current],
                        options_before.bytes_per_line as int,
                    ),
                )
                &&& options_kept(options_before, options_after)
            },
            None => {
                &&& after == before
                &&& options_after == options_before
                &&& r == if event is Key {
                    ModeTransition::Pop
                } else {
                    ModeTransition::NotHandled(Mode::JumpTo(self))
                }
            },
        }
    }

    pub fn transition(self, evt: &Event, buffers: &mut Buffers, options: &mut ViewOptions) -> (r:
        ModeTransition)
        requires
            old(buffers).wf(),
        ensures
            final(buffers).wf(),
            layout_kept(*old(options), *final(options)),
            self.answers(
                *evt,
                old(buffers)@,
                *old(options),
                r,
                final(buffers)@,
                *final(options),
            ),
    {
        match default_maps().event_to_action(evt) {
            Some(direction) => {
                let map = if self.extend {
                    RegionMap::ExtendBoundary(direction)
                } else {
                    RegionMap::JumpBoundary(direction)
                };
                let buffer = buffers.current_mut();
                map.perform(buffer, options);
                ModeTransition::pop()
            },
            None => {
                match evt {
                    Event::Key(_) => ModeTransition::pop(),
                    _ => ModeTransition::not_handled(Mode::JumpTo(self)),
                }
            },
        }
    }
}

} // verus!
