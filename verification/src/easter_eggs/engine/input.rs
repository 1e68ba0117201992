//! Keys to game inputs, and the set of keys held down between frames.

use vstd::prelude::*;

use super::game::Input;

verus! {

/// A key as the terminal reports it.
#[derive(Debug, Clone, Copy, PartialEq, Eq, Structural)]
pub enum Key {
    Up,
    Down,
    Left,
    Right,
    Enter,
    Esc,
    Backspace,
    Char(char),
    /// Any other key.
    Other,
}

/// What happened to a key.
#[derive(Debug, Clone, Copy, PartialEq, Eq, Structural)]
pub enum KeyKind {
    Press,
    Repeat,
    Release,
}

/// The input a key stands for: Ctrl+C and Q or Esc quit; arrows and WASD
/// (either case) steer; Space and Enter act.
pub open spec fn key_input(key: Key, ctrl: bool) -> Option<Input> {
    if ctrl && key == Key::Char('c') {
        Some(Input::Quit)
    } else {
        match key {
            Key::Up => Some(Input::Up),
            Key::Down => Some(Input::Down),
            Key::Left => Some(Input::Left),
            Key::Right => Some(Input::Right),
            Key::Char('w') | Key::Char('W') => Some(Input::Up),
            Key::Char('a') | Key::Char('A') => Some(Input::Left),
            Key::Char('s') | Key::Char('S') => Some(Input::Down),
            Key::Char('d') | Key::Char('D') => Some(Input::Right),
            Key::Char(' ') | Key::Enter => Some(Input::Action),
            Key::Char('q') | Key::Char('Q') | Key::Esc => Some(Input::Quit),
            _ => None,
        }
    }
}

/// Maps a raw key, with whether Ctrl is held, to a game input.
pub fn map_key(key: Key, ctrl: bool) -> (r: Option<Input>)
    ensures
        r == key_input(key, ctrl),
{
    if ctrl && key == Key::Char('c') {
        return Some(Input::Quit);
    }
    match key {
        Key::Up => Some(Input::Up),
        Key::Down => Some(Input::Down),
        Key::Left => Some(Input::Left),
        Key::Right => Some(Input::Right),
        Key::Char('w') | Key::Char('W') => Some(Input::Up),
        Key::Char('a') | Key::Char('A') => Some(Input::Left),
        Key::Char('s') | Key::Char('S') => Some(Input::Down),
        Key::Char('d') | Key::Char('D') => Some(Input::Right),
        Key::Char(' ') | Key::Enter => Some(Input::Action),
        Key::Char('q') | Key::Char('Q') | Key::Esc => Some(Input::Quit),
        _ => None,
    }
}

/// A key held down: which input, when it was first pressed (a press
/// counter) and when it was last seen (nanoseconds on a monotonic clock).
#[derive(Debug, Clone, Copy, PartialEq, Eq, Structural)]
pub struct HeldKey {
    pub input: Input,
    pub order: u64,
    pub last_seen: u64,
}

/// How long a key counts as held without being seen again: 100 ms.
pub const HOLD_NANOS: u64 = 100_000_000;

/// `k` was seen less than 100 ms before `now`.
pub open spec fn seen_recently(k: HeldKey, now: u64) -> bool {
    (if now >= k.last_seen { now - k.last_seen } else { 0 }) < HOLD_NANOS
}

/// `s` with `k` placed before the first key pressed after it.
pub open spec fn insert_by_order(k: HeldKey, s: Seq<HeldKey>) -> Seq<HeldKey>
    decreases s.len(),
{
    if s.len() == 0 {
        seq![k]
    } else if k.order < s[0].order {
        seq![k] + s
    } else {
        seq![s[0]] + insert_by_order(k, s.drop_first())
    }
}

/// The held keys in the order they were first pressed.
pub open spec fn by_press_order(s: Seq<HeldKey>) -> Seq<HeldKey>
    decreases s.len(),
{
    if s.len() == 0 {
        s
    } else {
        insert_by_order(s.last(), by_press_order(s.drop_last()))
    }
}

/// The inputs of `s`, in order, without any that contradicts an earlier
/// one: Left after Right, Right after Left, Up after Down, Down after Up
/// are dropped; Action and Quit always pass. The flags record which
/// directions have already passed.
pub open spec fn without_opposites(s: Seq<Input>, left: bool, right: bool, up: bool, down: bool) -> Seq<Input>
    decreases s.len(),
{
    if s.len() == 0 {
        s
    } else {
        let rest = s.drop_first();
        match s[0] {
            Input::Left => if !right {
                seq![Input::Left] + without_opposites(rest, true, right, up, down)
            } else {
                without_opposites(rest, left, right, up, down)
            },
            Input::Right => if !left {
                seq![Input::Right] + without_opposites(rest, left, true, up, down)
            } else {
                without_opposites(rest, left, right, up, down)
            },
            Input::Up => if !down {
                seq![Input::Up] + without_opposites(rest, left, right, true, down)
            } else {
                without_opposites(rest, left, right, up, down)
            },
            Input::Down => if !up {
                seq![Input::Down] + without_opposites(rest, left, right, up, true)
            } else {
                without_opposites(rest, left, right, up, down)
            },
            other => seq![other] + without_opposites(rest, left, right, up, down),
        }
    }
}

/// At most the first three of `s`.
pub open spec fn first_three(s: Seq<Input>) -> Seq<Input> {
    if s.len() <= 3 {
        s
    } else {
        s.take(3)
    }
}

/// The inputs for this frame from the held keys: the keys in press order,
/// contradicting directions dropped, at most three.
pub open spec fn frame_inputs(held: Seq<HeldKey>) -> Seq<Input> {
    first_three(
        without_opposites(by_press_order(held).map_values(|k: HeldKey| k.input), false, false, false, false),
    )
}

/// A quiet, checked picture of the held keys.
pub struct InputView {
    pub held: Seq<HeldKey>,
    pub press_counter: u64,
}

impl InputView {
    /// No input is held twice, no two keys share a press number, and every
    /// press number was handed out before.
    pub open spec fn wf(self) -> bool {
        &&& forall|i: int, j: int|
            0 <= i < j < self.held.len() ==> #[trigger] self.held[i].input != #[trigger] self.held[j].input
        &&& forall|i: int, j: int|
            0 <= i < j < self.held.len() ==> #[trigger] self.held[i].order != #[trigger] self.held[j].order
        &&& forall|i: int| 0 <= i < self.held.len() ==> (#[trigger] self.held[i]).order < self.press_counter
    }

    /// Where `input` is held, if it is.
    pub open spec fn position(self, input: Input) -> Option<int> {
        if exists|i: int| 0 <= i < self.held.len() && (#[trigger] self.held[i]).input == input {
            Some(choose|i: int| 0 <= i < self.held.len() && (#[trigger] self.held[i]).input == input)
        } else {
            None
        }
    }

    /// A press or repeat of `input` at time `now`: a new key gets the next
    /// press number; a held key keeps its number and is seen again.
    pub open spec fn pressed(self, input: Input, now: u64) -> InputView {
        match self.position(input) {
            Some(i) => InputView {
                held: self.held.update(i, HeldKey { last_seen: now, ..self.held[i] }),
                ..self
            },
            None => InputView {
                held: self.held.push(HeldKey { input, order: self.press_counter, last_seen: now }),
                press_counter: (self.press_counter + 1) as u64,
            },
        }
    }

    /// A release of `input`: it is no longer held.
    pub open spec fn released(self, input: Input) -> InputView {
        match self.position(input) {
            Some(i) => InputView { held: self.held.remove(i), ..self },
            None => self,
        }
    }

    /// Keys not seen for 100 ms or more are dropped.
    pub open spec fn expired(self, now: u64) -> InputView {
        InputView { held: self.held.filter(|k: HeldKey| seen_recently(k, now)), ..self }
    }
}

/// Tracks which keys are currently held down and when they were last seen.
///
/// The held keys are a vector in which each input occurs at most once (see
/// `InputView::wf`), not a `HashMap` keyed by `Input`: with such a map,
/// Verus accepts `insert` but cannot prove that the key is then present,
/// since vstd gives a key type with a derived `Hash` no key model.
pub struct InputState {
    held_keys: Vec<HeldKey>,
    press_counter: u64,
}

impl View for InputState {
    type V = InputView;

    closed spec fn view(&self) -> InputView {
        InputView { held: self.held_keys@, press_counter: self.press_counter }
    }
}

proof fn lemma_insert_by_order_at(k: HeldKey, s: Seq<HeldKey>, j: int)
    requires
        0 <= j <= s.len(),
        forall|i: int| 0 <= i < j ==> !(k.order < (#[trigger] s[i]).order),
        j < s.len() ==> k.order < s[j].order,
    ensures
        insert_by_order(k, s) == s.subrange(0, j).push(k) + s.subrange(j, s.len() as int),
    decreases s.len(),
{
    if s.len() == 0 {
        assert(s.subrange(0, j).push(k) + s.subrange(j, s.len() as int) =~= seq![k]);
    } else if j == 0 {
        assert(s.subrange(0, j).push(k) + s.subrange(j, s.len() as int) =~= seq![k] + s);
    } else {
        let t = s.drop_first();
        assert forall|i: int| 0 <= i < j - 1 implies !(k.order < (#[trigger] t[i]).order) by {
            assert(t[i] == s[i + 1]);
        }
        lemma_insert_by_order_at(k, t, j - 1);
        assert(s.subrange(0, j).push(k) + s.subrange(j, s.len() as int) =~= seq![s[0]] + (t.subrange(0, j - 1).push(k)
            + t.subrange(j - 1, t.len() as int)));
    }
}

impl InputState {
    /// No keys held.
    pub fn new() -> (s: Self)
        ensures
            s@.wf(),
            s@.held.len() == 0,
            s@.press_counter == 0,
    {
        InputState { held_keys: Vec::new(), press_counter: 0 }
    }

    /// How many keys have been pressed so far; the next new key gets this
    /// press number.
    pub fn press_count(&self) -> (r: u64)
        ensures
            r == self@.press_counter,
    {
        self.press_counter
    }

    /// Where `input` is held, if it is.
    fn find(&self, input: Input) -> (r: Option<usize>)
        requires
            self@.wf(),
        ensures
            r matches Some(i) ==> self@.position(input) == Some(i as int),
            r is None ==> self@.position(input) is None,
    {
        let n = self.held_keys.len();
        let mut i: usize = 0;
        while i < n
            invariant
                n == self.held_keys@.len(),
                self@.wf(),
                i <= n,
                forall|j: int| 0 <= j < i ==> (#[trigger] self.held_keys@[j]).input != input,
            decreases n - i,
        {
            if self.held_keys[i].input == input {
                proof {
                    assert(self@.held[i as int].input == input);
                    let c = choose|j: int| 0 <= j < self@.held.len() && (#[trigger] self@.held[j]).input == input;
                    if c != i {
                        if c < i {
                            assert(self@.held[c].input != self@.held[i as int].input);
                        } else {
                            assert(self@.held[i as int].input != self@.held[c].input);
                        }
                    }
                }
                return Some(i);
            }
            i = i + 1;
        }
        None
    }

    /// Handles one key event at time `now` (nanoseconds on a monotonic
    /// clock). Returns whether the event counts as the key being seen: a
    /// press or a repeat does, a release does not.
    pub fn key_event(&mut self, input: Input, kind: KeyKind, now: u64) -> (seen: bool)
        requires
            old(self)@.wf(),
            old(self)@.press_counter < u64::MAX,
        ensures
            final(self)@.wf(),
            seen == (kind != KeyKind::Release),
            final(self)@ == if kind == KeyKind::Release {
                old(self)@.released(input)
            } else {
                old(self)@.pressed(input, now)
            },
    {
        let ghost pre = self@;
        match kind {
            KeyKind::Press | KeyKind::Repeat => {
                match self.find(input) {
                    None => {
                        self.held_keys.push(HeldKey { input, order: self.press_counter, last_seen: now });
                        self.press_counter = self.press_counter + 1;
                        proof {
                            assert forall|i: int, j: int| 0 <= i < j < self@.held.len() implies #[trigger] self@.held[i].input
                                != #[trigger] self@.held[j].input by {
                                if j == pre.held.len() {
                                    assert(pre.held[i].input != input);
                                }
                            }
                            assert forall|i: int, j: int| 0 <= i < j < self@.held.len() implies #[trigger] self@.held[i].order
                                != #[trigger] self@.held[j].order by {
                                if j == pre.held.len() {
                                    assert(pre.held[i].order < pre.press_counter);
                                }
                            }
                        }
                        true
                    },
                    Some(i) => {
                        let order = self.held_keys[i].order;
                        self.held_keys.set(i, HeldKey { input, order, last_seen: now });
                        true
                    },
                }
            },
            KeyKind::Release => {
                match self.find(input) {
                    None => false,
                    Some(i) => {
                        self.held_keys.remove(i);
                        proof {
                            assert forall|a: int, b: int| 0 <= a < b < self@.held.len() implies #[trigger] self@.held[a].input
                                != #[trigger] self@.held[b].input by {
                                let a0 = if a < i { a } else { a + 1 };
                                let b0 = if b < i { b } else { b + 1 };
                                assert(pre.held[a0].input != pre.held[b0].input);
                            }
                            assert forall|a: int, b: int| 0 <= a < b < self@.held.len() implies #[trigger] self@.held[a].order
                                != #[trigger] self@.held[b].order by {
                                let a0 = if a < i { a } else { a + 1 };
                                let b0 = if b < i { b } else { b + 1 };
                                assert(pre.held[a0].order != pre.held[b0].order);
                            }
                            assert forall|a: int| 0 <= a < self@.held.len() implies (#[trigger] self@.held[a]).order
                                < self@.press_counter by {
                                let a0 = if a < i { a } else { a + 1 };
                                assert(pre.held[a0].order < pre.press_counter);
                            }
                        }
                        false
                    },
                }
            },
        }
    }

    /// The held keys in the order they were first pressed.
    fn sorted_by_press(&self) -> (r: Vec<HeldKey>)
        ensures
            r@ == by_press_order(self@.held),
    {
        let n = self.held_keys.len();
        let mut sorted: Vec<HeldKey> = Vec::new();
        let mut i: usize = 0;
        while i < n
            invariant
                n == self.held_keys@.len(),
                i <= n,
                sorted@ == by_press_order(self.held_keys@.subrange(0, i as int)),
            decreases n - i,
        {
            let k = self.held_keys[i];
            let m = sorted.len();
            let mut j: usize = 0;
            while j < m && !(k.order < sorted[j].order)
                invariant
                    m == sorted@.len(),
                    j <= m,
                    forall|t: int| 0 <= t < j ==> !(k.order < (#[trigger] sorted@[t]).order),
                decreases m - j,
            {
                j = j + 1;
            }
            proof {
                lemma_insert_by_order_at(k, sorted@, j as int);
                let pre = self.held_keys@.subrange(0, i + 1);
                assert(pre.drop_last() =~= self.held_keys@.subrange(0, i as int));
                assert(pre.last() == k);
            }
            sorted.insert(j, k);
            assert(sorted@ =~= by_press_order(self.held_keys@.subrange(0, i + 1)));
            i = i + 1;
        }
        assert(self.held_keys@.subrange(0, n as int) =~= self.held_keys@);
        sorted
    }

    /// The inputs for this frame: the held keys in press order, with
    /// contradicting directions dropped, at most three.
    pub fn generate_inputs(&self) -> (r: Vec<Input>)
        ensures
            r@ == frame_inputs(self@.held),
    {
        if self.held_keys.len() == 0 {
            assert(by_press_order(self@.held) =~= Seq::<HeldKey>::empty());
            return Vec::new();
        }
        let sorted = self.sorted_by_press();
        let n = sorted.len();
        let mut sorted_keys: Vec<(Input, u64)> = Vec::new();
        let mut i: usize = 0;
        while i < n
            invariant
                n == sorted@.len(),
                i <= n,
                sorted_keys@.len() == i,
                forall|t: int| 0 <= t < i ==> #[trigger] sorted_keys@[t] == (sorted@[t].input, sorted@[t].order),
            decreases n - i,
        {
            sorted_keys.push((sorted[i].input, sorted[i].order));
            i = i + 1;
        }
        assert(sorted_keys@.map_values(|p: (Input, u64)| p.0) =~= sorted@.map_values(|k: HeldKey| k.input));
        let filtered = self.filter_opposing_inputs(sorted_keys);
        let mut keys_to_process: Vec<Input> = Vec::new();
        let mut t: usize = 0;
        while t < filtered.len() && t < 3
            invariant
                t <= filtered@.len(),
                t <= 3,
                keys_to_process@ == filtered@.subrange(0, t as int),
            decreases 3 - t,
        {
            keys_to_process.push(filtered[t]);
            assert(keys_to_process@ =~= filtered@.subrange(0, t + 1));
            t = t + 1;
        }
        assert(keys_to_process@ =~= first_three(filtered@));
        keys_to_process
    }

    /// Drops, in order, each direction that contradicts one already kept:
    /// Left after Right, Right after Left, Up after Down, Down after Up.
    /// Action and Quit always pass.
    pub fn filter_opposing_inputs(&self, sorted_keys: Vec<(Input, u64)>) -> (r: Vec<Input>)
        ensures
            r@ == without_opposites(sorted_keys@.map_values(|p: (Input, u64)| p.0), false, false, false, false),
    {
        let ghost all = sorted_keys@.map_values(|p: (Input, u64)| p.0);
        let mut result: Vec<Input> = Vec::new();
        let mut has_left = false;
        let mut has_right = false;
        let mut has_up = false;
        let mut has_down = false;
        let n = sorted_keys.len();
        let mut i: usize = 0;
        assert(all.skip(0) =~= all);
        while i < n
            invariant
                n == all.len(),
                all == sorted_keys@.map_values(|p: (Input, u64)| p.0),
                i <= n,
                result@ + without_opposites(all.skip(i as int), has_left, has_right, has_up, has_down)
                    == without_opposites(all, false, false, false, false),
            decreases n - i,
        {
            let input = sorted_keys[i].0;
            proof {
                assert(all.skip(i as int)[0] == input);
                assert(all.skip(i as int).drop_first() =~= all.skip(i + 1));
            }
            let ghost before = result@;
            match input {
                Input::Left => {
                    if !has_right {
                        result.push(input);
                        has_left = true;
                    }
                },
                Input::Right => {
                    if !has_left {
                        result.push(input);
                        has_right = true;
                    }
                },
                Input::Up => {
                    if !has_down {
                        result.push(input);
                        has_up = true;
                    }
                },
                Input::Down => {
                    if !has_up {
                        result.push(input);
                        has_down = true;
                    }
                },
                _ => {
                    result.push(input);
                },
            }
            proof {
                let rest = without_opposites(all.skip(i + 1), has_left, has_right, has_up, has_down);
                if result@.len() > before.len() {
                    assert(result@ + rest =~= before + (seq![input] + rest));
                }
            }
            i = i + 1;
        }
        assert(all.skip(n as int) =~= Seq::<Input>::empty());
        assert(result@ + Seq::<Input>::empty() =~= result@);
        result
    }

    /// Ends a frame of polling at time `now`: when no key was seen during
    /// it, the keys not seen for 100 ms go; then the frame's inputs.
    pub fn finish_frame(&mut self, any_key_seen: bool, now: u64) -> (r: Vec<Input>)
        requires
            old(self)@.wf(),
        ensures
            final(self)@.wf(),
            final(self)@ == if any_key_seen {
                old(self)@
            } else {
                old(self)@.expired(now)
            },
            r@ == frame_inputs(final(self)@.held),
    {
        if !any_key_seen {
            self.expire(now);
        }
        self.generate_inputs()
    }

    /// Drops the keys not seen for 100 ms or more before `now`; terminals
    /// that send no release events rely on this.
    pub fn expire(&mut self, now: u64)
        requires
            old(self)@.wf(),
        ensures
            final(self)@.wf(),
            final(self)@ == old(self)@.expired(now),
    {
        let ghost pre = self@;
        let n = self.held_keys.len();
        let mut kept: Vec<HeldKey> = Vec::new();
        let mut i: usize = 0;
        while i < n
            invariant
                n == self.held_keys@.len(),
                self@ == pre,
                i <= n,
                kept@ == self.held_keys@.subrange(0, i as int).filter(|k: HeldKey| seen_recently(k, now)),
            decreases n - i,
        {
            let k = self.held_keys[i];
            let age = now.saturating_sub(k.last_seen);
            proof {
                reveal(Seq::filter);
                assert(self.held_keys@.subrange(0, i + 1).drop_last() =~= self.held_keys@.subrange(0, i as int));
            }
            if age < HOLD_NANOS {
                kept.push(k);
            }
            i = i + 1;
        }
        assert(self.held_keys@.subrange(0, n as int) =~= self.held_keys@);
        self.held_keys = kept;
        proof {
            let f = |k: HeldKey| seen_recently(k, now);
            let s = self@.held;
            assert forall|i: int| 0 <= i < s.len() implies pre.held.contains(#[trigger] s[i]) by {
                lemma_filter_member(pre.held, f, i);
            }
            assert forall|a: int, b: int| 0 <= a < b < s.len() implies #[trigger] s[a].input != #[trigger] s[b].input by {
                lemma_filter_keeps_order(pre.held, f, a, b);
            }
            assert forall|a: int, b: int| 0 <= a < b < s.len() implies #[trigger] s[a].order != #[trigger] s[b].order by {
                lemma_filter_keeps_order(pre.held, f, a, b);
            }
            assert forall|a: int| 0 <= a < s.len() implies (#[trigger] s[a]).order < self@.press_counter by {
                assert(pre.held.contains(s[a]));
            }
        }
    }
}

/// Every element of a filtered sequence comes from the unfiltered one.
proof fn lemma_filter_member(s: Seq<HeldKey>, f: spec_fn(HeldKey) -> bool, a: int)
    requires
        0 <= a < s.filter(f).len(),
    ensures
        exists|i: int| 0 <= i < s.len() && s[i] == s.filter(f)[a],
    decreases s.len(),
{
    reveal(Seq::filter);
    let rest = s.drop_last().filter(f);
    if f(s.last()) && a == rest.len() {
        assert(s[s.len() - 1] == s.filter(f)[a]);
    } else {
        lemma_filter_member(s.drop_last(), f, a);
        let i = choose|i: int| 0 <= i < s.drop_last().len() && s.drop_last()[i] == rest[a];
        assert(s[i] == s.filter(f)[a]);
    }
}

/// Two distinct positions of a filtered sequence come from two distinct
/// positions of the unfiltered sequence, in the same order.
proof fn lemma_filter_keeps_order(s: Seq<HeldKey>, f: spec_fn(HeldKey) -> bool, a: int, b: int)
    requires
        0 <= a < b < s.filter(f).len(),
    ensures
        exists|i: int, j: int| 0 <= i < j < s.len() && s[i] == s.filter(f)[a] && s[j] == s.filter(f)[b],
    decreases s.len(),
{
    reveal(Seq::filter);
    let rest = s.drop_last().filter(f);
    s.drop_last().lemma_filter_len(f);
    if f(s.last()) && b == rest.len() {
        lemma_filter_member(s.drop_last(), f, a);
        let i = choose|i: int| 0 <= i < s.drop_last().len() && s.drop_last()[i] == rest[a];
        assert(s[i] == s.filter(f)[a]);
        assert(s[s.len() - 1] == s.filter(f)[b]);
    } else {
        lemma_filter_keeps_order(s.drop_last(), f, a, b);
        let (i, j) = choose|i: int, j: int|
            0 <= i < j < s.drop_last().len() && s.drop_last()[i] == rest[a] && s.drop_last()[j] == rest[b];
        assert(s[i] == s.filter(f)[a] && s[j] == s.filter(f)[b]);
    }
}


/// Keys listed with non-decreasing press numbers.
pub open spec fn in_press_order(s: Seq<HeldKey>) -> bool {
    forall|i: int, j: int| 0 <= i < j < s.len() ==> (#[trigger] s[i]).order <= (#[trigger] s[j]).order
}

proof fn lemma_insert_by_order(k: HeldKey, s: Seq<HeldKey>)
    requires
        in_press_order(s),
    ensures
        in_press_order(insert_by_order(k, s)),
        insert_by_order(k, s).len() == s.len() + 1,
        forall|x: HeldKey| #[trigger] insert_by_order(k, s).contains(x) <==> (x == k || s.contains(x)),
    decreases s.len(),
{
    let r = insert_by_order(k, s);
    if s.len() == 0 {
        assert forall|x: HeldKey| #[trigger] r.contains(x) <==> (x == k || s.contains(x)) by {
            if x == k {
                assert(r[0] == k);
            }
        }
    } else if k.order < s[0].order {
        assert forall|x: HeldKey| #[trigger] r.contains(x) <==> (x == k || s.contains(x)) by {
            if x == k {
                assert(r[0] == k);
            }
            if s.contains(x) {
                let i = choose|i: int| 0 <= i < s.len() && s[i] == x;
                assert(r[i + 1] == x);
            }
            if r.contains(x) {
                let i = choose|i: int| 0 <= i < r.len() && r[i] == x;
                if i > 0 {
                    assert(s[i - 1] == x);
                }
            }
        }
    } else {
        let t = s.drop_first();
        assert(in_press_order(t)) by {
            assert forall|i: int, j: int| 0 <= i < j < t.len() implies (#[trigger] t[i]).order <= (#[trigger] t[j]).order by {
                assert(t[i] == s[i + 1] && t[j] == s[j + 1]);
            }
        }
        lemma_insert_by_order(k, t);
        let rt = insert_by_order(k, t);
        assert forall|i: int, j: int| 0 <= i < j < r.len() implies (#[trigger] r[i]).order <= (#[trigger] r[j]).order by {
            if i == 0 {
                let x = rt[j - 1];
                assert(r[j] == x);
                assert(rt.contains(x));
                if x != k {
                    let m = choose|m: int| 0 <= m < t.len() && t[m] == x;
                    assert(s[m + 1] == x);
                }
            } else {
                assert(r[i] == rt[i - 1] && r[j] == rt[j - 1]);
            }
        }
        assert forall|x: HeldKey| #[trigger] r.contains(x) <==> (x == k || s.contains(x)) by {
            if r.contains(x) {
                let i = choose|i: int| 0 <= i < r.len() && r[i] == x;
                if i > 0 {
                    assert(rt[i - 1] == x);
                    assert(rt.contains(x));
                    if x != k {
                        let m = choose|m: int| 0 <= m < t.len() && t[m] == x;
                        assert(s[m + 1] == x);
                    }
                }
            }
            if x == k || s.contains(x) {
                if x == s[0] {
                    assert(r[0] == x);
                } else {
                    if x != k {
                        let m = choose|m: int| 0 <= m < s.len() && s[m] == x;
                        assert(t[m - 1] == x);
                    }
                    assert(rt.contains(x));
                    let i = choose|i: int| 0 <= i < rt.len() && rt[i] == x;
                    assert(r[i + 1] == x);
                }
            }
        }
    }
}

/// Listing the held keys by press order loses no key, adds none, and puts
/// them in press order.
pub proof fn lemma_press_order_sorts(s: Seq<HeldKey>)
    ensures
        in_press_order(by_press_order(s)),
        by_press_order(s).len() == s.len(),
        forall|x: HeldKey| #[trigger] by_press_order(s).contains(x) <==> s.contains(x),
    decreases s.len(),
{
    if s.len() > 0 {
        lemma_press_order_sorts(s.drop_last());
        lemma_insert_by_order(s.last(), by_press_order(s.drop_last()));
        assert forall|x: HeldKey| #[trigger] by_press_order(s).contains(x) <==> s.contains(x) by {
            if s.contains(x) && x != s.last() {
                let m = choose|m: int| 0 <= m < s.len() && s[m] == x;
                assert(s.drop_last()[m] == x);
            }
            if s.drop_last().contains(x) {
                let m = choose|m: int| 0 <= m < s.drop_last().len() && s.drop_last()[m] == x;
                assert(s[m] == x);
            }
        }
    }
}

/// No contradicting directions ever pass together, and a direction whose
/// opposite has already passed does not pass.
pub proof fn lemma_no_opposites(s: Seq<Input>, left: bool, right: bool, up: bool, down: bool)
    requires
        !(left && right),
        !(up && down),
    ensures
        ({
            let out = without_opposites(s, left, right, up, down);
            &&& out.len() <= s.len()
            &&& right ==> !out.contains(Input::Left)
            &&& left ==> !out.contains(Input::Right)
            &&& down ==> !out.contains(Input::Up)
            &&& up ==> !out.contains(Input::Down)
            &&& !(out.contains(Input::Left) && out.contains(Input::Right))
            &&& !(out.contains(Input::Up) && out.contains(Input::Down))
        }),
    decreases s.len(),
{
    if s.len() > 0 {
        let rest = s.drop_first();
        let out = without_opposites(s, left, right, up, down);
        let (l2, r2, u2, d2) = match s[0] {
            Input::Left => if !right { (true, right, up, down) } else { (left, right, up, down) },
            Input::Right => if !left { (left, true, up, down) } else { (left, right, up, down) },
            Input::Up => if !down { (left, right, true, down) } else { (left, right, up, down) },
            Input::Down => if !up { (left, right, up, true) } else { (left, right, up, down) },
            _ => (left, right, up, down),
        };
        lemma_no_opposites(rest, l2, r2, u2, d2);
        let tail = without_opposites(rest, l2, r2, u2, d2);
        assert forall|x: Input| #[trigger] out.contains(x) implies (x == s[0] || tail.contains(x)) by {
            let i = choose|i: int| 0 <= i < out.len() && out[i] == x;
            if out.len() > tail.len() {
                assert(out =~= seq![s[0]] + tail);
                if i > 0 {
                    assert(tail[i - 1] == x);
                }
            } else {
                assert(out =~= tail);
            }
        }
    }
}

/// A frame never carries more than three inputs, nor two contradicting
/// directions.
pub proof fn lemma_frame_inputs(held: Seq<HeldKey>)
    ensures
        frame_inputs(held).len() <= 3,
        !(frame_inputs(held).contains(Input::Left) && frame_inputs(held).contains(Input::Right)),
        !(frame_inputs(held).contains(Input::Up) && frame_inputs(held).contains(Input::Down)),
{
    let all = without_opposites(by_press_order(held).map_values(|k: HeldKey| k.input), false, false, false, false);
    lemma_no_opposites(by_press_order(held).map_values(|k: HeldKey| k.input), false, false, false, false);
    let f = frame_inputs(held);
    assert forall|x: Input| #[trigger] f.contains(x) implies all.contains(x) by {
        let i = choose|i: int| 0 <= i < f.len() && f[i] == x;
        assert(all[i] == x);
    }
}

/// A released key is no longer held.
pub proof fn lemma_release_forgets(v: InputView, input: Input)
    requires
        v.wf(),
    ensures
        v.released(input).position(input) is None,
{
    let r = v.released(input);
    if let Some(i) = v.position(input) {
        if exists|j: int| 0 <= j < r.held.len() && (#[trigger] r.held[j]).input == input {
            let j = choose|j: int| 0 <= j < r.held.len() && (#[trigger] r.held[j]).input == input;
            let j0 = if j < i { j } else { j + 1 };
            assert(v.held[j0] == r.held[j]);
            if j0 < i {
                assert(v.held[j0].input != v.held[i].input);
            } else {
                assert(v.held[i].input != v.held[j0].input);
            }
        }
    }
}


/// The first horizontal direction (Left or Right) among the inputs, if any.
pub open spec fn first_horizontal(s: Seq<Input>) -> Option<Input>
    decreases s.len(),
{
    if s.len() == 0 {
        None
    } else if s[0] == Input::Left || s[0] == Input::Right {
        Some(s[0])
    } else {
        first_horizontal(s.drop_first())
    }
}

/// The first vertical direction (Up or Down) among the inputs, if any.
pub open spec fn first_vertical(s: Seq<Input>) -> Option<Input>
    decreases s.len(),
{
    if s.len() == 0 {
        None
    } else if s[0] == Input::Up || s[0] == Input::Down {
        Some(s[0])
    } else {
        first_vertical(s.drop_first())
    }
}

/// An input passes when it is Action or Quit, or the direction `h` (on the
/// horizontal axis) or `v` (on the vertical one).
pub open spec fn passes(h: Option<Input>, v: Option<Input>) -> spec_fn(Input) -> bool {
    |x: Input|
        match x {
            Input::Left | Input::Right => h == Some(x),
            Input::Up | Input::Down => v == Some(x),
            _ => true,
        }
}

proof fn lemma_without_opposites_filter(s: Seq<Input>, left: bool, right: bool, up: bool, down: bool)
    requires
        !(left && right),
        !(up && down),
    ensures
        ({
            let h = if left { Some(Input::Left) } else if right { Some(Input::Right) } else { first_horizontal(s) };
            let v = if up { Some(Input::Up) } else if down { Some(Input::Down) } else { first_vertical(s) };
            without_opposites(s, left, right, up, down) == s.filter(passes(h, v))
        }),
    decreases s.len(),
{
    let h = if left { Some(Input::Left) } else if right { Some(Input::Right) } else { first_horizontal(s) };
    let v = if up { Some(Input::Up) } else if down { Some(Input::Down) } else { first_vertical(s) };
    if s.len() == 0 {
        return;
    }
    let rest = s.drop_first();
    assert(s =~= seq![s[0]] + rest);
    Seq::filter_distributes_over_add(seq![s[0]], rest, passes(h, v));
    let head = seq![s[0]].filter(passes(h, v));
    reveal_with_fuel(Seq::filter, 2);
    assert(seq![s[0]].drop_last() =~= Seq::<Input>::empty());
    match s[0] {
        Input::Left => {
            if !right {
                lemma_without_opposites_filter(rest, true, right, up, down);
            } else {
                lemma_without_opposites_filter(rest, left, right, up, down);
            }
        },
        Input::Right => {
            if !left {
                lemma_without_opposites_filter(rest, left, true, up, down);
            } else {
                lemma_without_opposites_filter(rest, left, right, up, down);
            }
        },
        Input::Up => {
            if !down {
                lemma_without_opposites_filter(rest, left, right, true, down);
            } else {
                lemma_without_opposites_filter(rest, left, right, up, down);
            }
        },
        Input::Down => {
            if !up {
                lemma_without_opposites_filter(rest, left, right, up, true);
            } else {
                lemma_without_opposites_filter(rest, left, right, up, down);
            }
        },
        _ => {
            lemma_without_opposites_filter(rest, left, right, up, down);
        },
    }
}

/// Which inputs of a frame pass: every Action and Quit, and on each axis
/// every press of the direction met first on that axis, and no press of
/// its opposite; the order is kept.
pub proof fn lemma_opposites_dropped_exactly(s: Seq<Input>)
    ensures
        without_opposites(s, false, false, false, false) == s.filter(
            passes(first_horizontal(s), first_vertical(s)),
        ),
{
    lemma_without_opposites_filter(s, false, false, false, false);
}

/// Every key stands for the input the game engine documents: the arrows
/// and W, A, S, D (either case) for their directions, Space and Enter for
/// Action, Q (either case), Esc and Ctrl+C for Quit.
pub proof fn lemma_keys_and_their_inputs(ctrl: bool)
    ensures
        key_input(Key::Up, ctrl) == Some(Input::Up),
        key_input(Key::Down, ctrl) == Some(Input::Down),
        key_input(Key::Left, ctrl) == Some(Input::Left),
        key_input(Key::Right, ctrl) == Some(Input::Right),
        key_input(Key::Char('w'), ctrl) == Some(Input::Up) && key_input(Key::Char('W'), ctrl) == Some(Input::Up),
        key_input(Key::Char('s'), ctrl) == Some(Input::Down) && key_input(Key::Char('S'), ctrl) == Some(Input::Down),
        key_input(Key::Char('a'), ctrl) == Some(Input::Left) && key_input(Key::Char('A'), ctrl) == Some(Input::Left),
        key_input(Key::Char('d'), ctrl) == Some(Input::Right) && key_input(Key::Char('D'), ctrl) == Some(
            Input::Right,
        ),
        key_input(Key::Char(' '), ctrl) == Some(Input::Action),
        key_input(Key::Enter, ctrl) == Some(Input::Action),
        key_input(Key::Char('q'), ctrl) == Some(Input::Quit) && key_input(Key::Char('Q'), ctrl) == Some(Input::Quit),
        key_input(Key::Esc, ctrl) == Some(Input::Quit),
        key_input(Key::Char('c'), true) == Some(Input::Quit),
        key_input(Key::Char('c'), false) is None,
        key_input(Key::Backspace, ctrl) is None,
        key_input(Key::Other, ctrl) is None,
{
}


/// Expiry keeps exactly the held keys seen less than 100 ms (100,000,000
/// ns) before `now`, in their order, and forgets no press number.
pub proof fn lemma_expiry_keeps_recent_keys(v: InputView, now: u64)
    ensures
        ({
            let w = v.expired(now);
            &&& w.press_counter == v.press_counter
            &&& forall|i: int|
                0 <= i < w.held.len() ==> v.held.contains(#[trigger] w.held[i]) && (if now >= w.held[i].last_seen {
                    now - w.held[i].last_seen
                } else {
                    0
                }) < 100_000_000
            &&& forall|k: HeldKey|
                #[trigger] v.held.contains(k) && (if now >= k.last_seen { now - k.last_seen } else { 0 })
                    < 100_000_000 ==> w.held.contains(k)
        }),
{
    let f = |k: HeldKey| seen_recently(k, now);
    let w = v.expired(now);
    assert forall|i: int| 0 <= i < w.held.len() implies v.held.contains(#[trigger] w.held[i]) && (if now
        >= w.held[i].last_seen {
        now - w.held[i].last_seen
    } else {
        0
    }) < 100_000_000 by {
        v.held.lemma_filter_contains_rev(f, w.held[i]);
        assert(w.held.contains(w.held[i]));
    }
    assert forall|k: HeldKey| #[trigger] v.held.contains(k) && (if now >= k.last_seen {
        now - k.last_seen
    } else {
        0
    }) < 100_000_000 implies w.held.contains(k) by {
        let i = choose|i: int| 0 <= i < v.held.len() && v.held[i] == k;
        v.held.lemma_filter_contains(f, i);
    }
}


/// A press of a key not held gives it the next press number and counts
/// it; a press or repeat of a held key keeps its number. Either way the
/// key is held afterwards, seen at `now`, and the other keys stay as they
/// were.
pub proof fn lemma_press_holds_key(v: InputView, input: Input, now: u64)
    requires
        v.wf(),
        v.press_counter < u64::MAX,
    ensures
        ({
            let w = v.pressed(input, now);
            let was = exists|i: int| 0 <= i < v.held.len() && (#[trigger] v.held[i]).input == input;
            &&& exists|i: int|
                0 <= i < w.held.len() && (#[trigger] w.held[i]).input == input && w.held[i].last_seen == now && (if was {
                    exists|j: int| 0 <= j < v.held.len() && (#[trigger] v.held[j]).input == input && v.held[j].order == w.held[i].order
                } else {
                    w.held[i].order == v.press_counter
                })
            &&& w.press_counter == if was { v.press_counter } else { (v.press_counter + 1) as u64 }
            &&& forall|k: HeldKey| #[trigger] v.held.contains(k) && k.input != input ==> w.held.contains(k)
            &&& w.held.len() == if was { v.held.len() } else { v.held.len() + 1 }
        }),
{
    let w = v.pressed(input, now);
    match v.position(input) {
        Some(i) => {
            assert(w.held[i].input == input);
            assert forall|k: HeldKey| #[trigger] v.held.contains(k) && k.input != input implies w.held.contains(k) by {
                let j = choose|j: int| 0 <= j < v.held.len() && v.held[j] == k;
                assert(w.held[j] == k);
            }
        },
        None => {
            let n = v.held.len() as int;
            assert(w.held[n].input == input);
            assert forall|k: HeldKey| #[trigger] v.held.contains(k) && k.input != input implies w.held.contains(k) by {
                let j = choose|j: int| 0 <= j < v.held.len() && v.held[j] == k;
                assert(w.held[j] == k);
            }
        },
    }
}


/// A frame carries the first three of the inputs that pass (all of them
/// when fewer pass), in press order.
pub proof fn lemma_frame_takes_first_three(held: Seq<HeldKey>)
    ensures
        ({
            let keys = by_press_order(held).map_values(|k: HeldKey| k.input);
            let p = keys.filter(passes(first_horizontal(keys), first_vertical(keys)));
            &&& frame_inputs(held).len() == if p.len() < 3 { p.len() } else { 3 }
            &&& forall|i: int| 0 <= i < frame_inputs(held).len() ==> #[trigger] frame_inputs(held)[i] == p[i]
        }),
{
    let keys = by_press_order(held).map_values(|k: HeldKey| k.input);
    lemma_opposites_dropped_exactly(keys);
}

} // verus!
