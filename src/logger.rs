//! Debug log: the most recent messages, newest first, and named timers.

use vstd::prelude::*;
use std::collections::VecDeque;

verus! {

/// Most messages the log keeps.
pub const MAX_MESSAGES: usize = 30;

#[derive(Debug, Clone, Copy, PartialEq, Eq, Structural)]
pub enum MessageLevel {
    Info,
    Error,
}

#[derive(Debug)]
pub struct Logger {
    /// `(milliseconds since the Unix epoch, level, text)`, newest first.
    pub messages: VecDeque<(u128, MessageLevel, String)>,
    /// Running timers: name and start time in milliseconds.
    pub timers: Vec<(String, u128)>,
}

/// The decimal digit `d` (below ten).
pub open spec fn digit(d: nat) -> char {
    if d == 0 { '0' } else if d == 1 { '1' } else if d == 2 { '2' } else if d == 3 { '3' } else if d == 4 {
        '4'
    } else if d == 5 { '5' } else if d == 6 { '6' } else if d == 7 { '7' } else if d == 8 { '8' } else { '9' }
}

/// `n` in decimal, without leading zeros.
pub open spec fn decimal(n: nat) -> Seq<char>
    decreases n,
{
    if n < 10 {
        seq![digit(n)]
    } else {
        decimal(n / 10).push(digit(n % 10))
    }
}

/// Text of the message that a stopped timer logs: `[name]: secs.tenths`
/// followed by `s`.
pub open spec fn timer_text(name: Seq<char>, secs: u128, tenths: u128) -> Seq<char> {
    seq!['['] + name + seq![']', ':', ' '] + decimal(secs as nat) + seq!['.'] + decimal(tenths as nat)
        + seq!['s']
}

/// Relies on `std::time::SystemTime::now` and `duration_since(UNIX_EPOCH)`:
/// the wall-clock time in milliseconds (0 before the epoch). Nothing is
/// promised of the value.
#[verifier::external_body]
pub(crate) fn now_millis() -> (r: u128) {
    match std::time::SystemTime::now().duration_since(std::time::UNIX_EPOCH) {
        Ok(d) => d.as_millis(),
        Err(_) => 0,
    }
}

/// Relies on `format!` with `{}` on `&str` and `u128`: the text as is and
/// the numbers in decimal without leading zeros.
#[verifier::external_body]
fn format_timer(name: &str, secs: u128, tenths: u128) -> (r: String)
    ensures
        r@ == timer_text(name@, secs, tenths),
{
    format!("[{}]: {}.{}s", name, secs, tenths)
}

impl Logger {
    /// At most `MAX_MESSAGES` messages; each timer name once.
    pub open spec fn wf(&self) -> bool {
        &&& self.messages@.len() <= MAX_MESSAGES
        &&& forall|i: int, j: int|
            0 <= i < j < self.timers@.len() ==> (#[trigger] self.timers@[i]).0@ != (#[trigger] self.timers@[j]).0@
    }

    /// Names of the running timers.
    pub open spec fn timer_names(&self) -> Set<Seq<char>> {
        Set::new(|n: Seq<char>| exists|i: int| 0 <= i < self.timers@.len() && (#[trigger] self.timers@[i]).0@ == n)
    }

    /// An empty log with no timers.
    pub fn new() -> (r: Logger)
        ensures
            r.wf(),
            r.messages@.len() == 0,
            r.timer_names() == Set::<Seq<char>>::empty(),
    {
        let r = Logger { messages: VecDeque::new(), timers: Vec::new() };
        assert(r.timer_names() =~= Set::<Seq<char>>::empty());
        r
    }

    /// Adds `message` at the front as an `Info` message stamped with the
    /// current time; the oldest message goes when the log is full.
    pub fn log(&mut self, message: String)
        requires
            old(self).wf(),
        ensures
            final(self).wf(),
            final(self).messages@.len() == if old(self).messages@.len() < MAX_MESSAGES {
                old(self).messages@.len() + 1int
            } else {
                MAX_MESSAGES as int
            },
            final(self).messages@[0].1 == MessageLevel::Info,
            final(self).messages@[0].2 == message,
            final(self).messages@.drop_first() == old(self).messages@.subrange(
                0,
                final(self).messages@.len() - 1,
            ),
            final(self).timers == old(self).timers,
    {
        let timestamp = now_millis();
        if self.messages.len() >= MAX_MESSAGES {
            let _oldest = self.messages.pop_back();
        }
        let ghost kept = self.messages@;
        self.messages.push_front((timestamp, MessageLevel::Info, message));
        assert(self.messages@.drop_first() =~= kept);
        assert(kept =~= old(self).messages@.subrange(0, self.messages@.len() - 1));
    }

    /// Starts timer `name` unless it is already running.
    pub fn start_timer(&mut self, name: &str)
        requires
            old(self).wf(),
        ensures
            final(self).wf(),
            final(self).timer_names() == old(self).timer_names().insert(name@),
            final(self).messages == old(self).messages,
    {
        let key = name.to_owned();
        let mut i: usize = 0;
        while i < self.timers.len()
            invariant
                0 <= i <= self.timers@.len(),
                *self == *old(self),
                self.wf(),
                key@ == name@,
                forall|k: int| 0 <= k < i ==> (#[trigger] self.timers@[k]).0@ != name@,
            decreases self.timers@.len() - i,
        {
            if self.timers[i].0 == key {
                assert(self.timer_names() =~= old(self).timer_names().insert(name@));
                return;
            }
            i = i + 1;
        }
        let ghost before = self.timers@;
        self.timers.push((key, now_millis()));
        proof {
            assert forall|a: int, b: int| 0 <= a < b < self.timers@.len() implies
                (#[trigger] self.timers@[a]).0@ != (#[trigger] self.timers@[b]).0@ by {
                assert(self.timers@[a] == before[a]);
                if b < before.len() {
                    assert(self.timers@[b] == before[b]);
                }
            }
            assert forall|n: Seq<char>| #[trigger] self.timer_names().contains(n) == old(self).timer_names().insert(name@).contains(n) by {
                if old(self).timer_names().contains(n) {
                    let k = choose|k: int| 0 <= k < before.len() && (#[trigger] before[k]).0@ == n;
                    assert(self.timers@[k] == before[k]);
                }
                if self.timer_names().contains(n) && n != name@ {
                    let k = choose|k: int| 0 <= k < self.timers@.len() && (#[trigger] self.timers@[k]).0@ == n;
                    assert(k < before.len());
                    assert(self.timers@[k] == before[k]);
                }
                assert(self.timers@[before.len() as int].0@ == name@);
            }
            assert(self.timer_names() =~= old(self).timer_names().insert(name@));
        }
    }

    /// Stops timer `name` if it is running and logs its elapsed time.
    pub fn stop_timer(&mut self, name: &str)
        requires
            old(self).wf(),
        ensures
            final(self).wf(),
            final(self).timer_names() == old(self).timer_names().remove(name@),
            !old(self).timer_names().contains(name@) ==> final(self).messages == old(self).messages,
            old(self).timer_names().contains(name@) ==> final(self).messages@.len() == if old(
                self,
            ).messages@.len() < MAX_MESSAGES {
                old(self).messages@.len() + 1int
            } else {
                MAX_MESSAGES as int
            } && final(self).messages@.drop_first() == old(self).messages@.subrange(
                0,
                final(self).messages@.len() - 1,
            ) && exists|secs: u128, tenths: u128| #[trigger] timer_text(name@, secs, tenths) == final(self).messages@[0].2@,
    {
        let key = name.to_owned();
        let mut i: usize = 0;
        while i < self.timers.len()
            invariant
                0 <= i <= self.timers@.len(),
                *self == *old(self),
                self.wf(),
                key@ == name@,
                forall|k: int| 0 <= k < i ==> (#[trigger] self.timers@[k]).0@ != name@,
            decreases self.timers@.len() - i,
        {
            if self.timers[i].0 == key {
                let ghost before = self.timers@;
                let (_, started) = self.timers.remove(i);
                proof {
                    assert forall|a: int, b: int| 0 <= a < b < self.timers@.len() implies
                        (#[trigger] self.timers@[a]).0@ != (#[trigger] self.timers@[b]).0@ by {
                        let sa = if a < i { a } else { a + 1 };
                        let sb = if b < i { b } else { b + 1 };
                        assert(self.timers@[a] == before[sa] && self.timers@[b] == before[sb]);
                    }
                    assert forall|n: Seq<char>| #[trigger] self.timer_names().contains(n) == old(self).timer_names().remove(name@).contains(n) by {
                        if self.timer_names().contains(n) {
                            let k = choose|k: int| 0 <= k < self.timers@.len() && (#[trigger] self.timers@[k]).0@ == n;
                            let sk = if k < i { k } else { k + 1 };
                            assert(self.timers@[k] == before[sk]);
                            assert(before[sk].0@ != before[i as int].0@);
                        }
                        if old(self).timer_names().remove(name@).contains(n) {
                            let k = choose|k: int| 0 <= k < before.len() && (#[trigger] before[k]).0@ == n;
                            assert(k != i);
                            let tk = if k < i { k } else { k - 1 };
                            assert(self.timers@[tk] == before[k]);
                        }
                    }
                    assert(self.timer_names() =~= old(self).timer_names().remove(name@));
                    assert(old(self).timer_names().contains(name@)) by {
                        assert(before[i as int].0@ == name@);
                    }
                }
                let now = now_millis();
                let elapsed: u128 = if now >= started { now - started } else { 0 };
                let rounded: u128 = elapsed / 100 + if elapsed % 100 >= 50 { 1u128 } else { 0u128 };
                let text = format_timer(name, rounded / 10, rounded % 10);
                self.log(text);
                return;
            }
            i = i + 1;
        }
        proof {
            assert(!old(self).timer_names().contains(name@)) by {
                if old(self).timer_names().contains(name@) {
                    let k = choose|k: int| 0 <= k < self.timers@.len() && (#[trigger] self.timers@[k]).0@ == name@;
                }
            }
            assert(self.timer_names() =~= old(self).timer_names().remove(name@));
        }
    }
}

} // verus!
