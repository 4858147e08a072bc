//! Loading indicator: a pair of braille glyphs that turns while work is
//! outstanding.

use vstd::prelude::*;
use vstd::arithmetic::div_mod::{lemma_add_mod_noop_right, lemma_sub_mod_noop_right, lemma_mod_pos_bound, lemma_mod_add_multiples_vanish};

verus! {

#[derive(Debug)]
pub struct Spinner {
    pub symbols: Vec<char>,
    /// Glyph shown once loading is done.
    pub done: char,
    /// Index of the current glyph.
    pub current: usize,
}

impl Spinner {
    /// There are glyphs and `current` is one of them.
    pub open spec fn wf(&self) -> bool {
        &&& self.symbols@.len() > 0
        &&& self.current < self.symbols@.len()
    }

    /// Eight glyphs, starting at the first.
    pub fn new() -> (r: Spinner)
        ensures
            r.wf(),
            r.symbols@.len() == 8,
            r.current == 0,
    {
        let symbols = vec!['⠁', '⠂', '⠄', '⡀', '⢀', '⠠', '⠐', '⠈'];
        Spinner { symbols, done: '⣿', current: 0 }
    }

    /// Moves `steps` glyphs forward (backward when negative), wrapping around.
    pub fn move_position(&mut self, steps: isize)
        requires
            old(self).wf(),
        ensures
            final(self).wf(),
            final(self).current as int == (old(self).current as int + steps as int) % (old(
                self,
            ).symbols@.len() as int),
            final(self).symbols == old(self).symbols,
            final(self).done == old(self).done,
    {
        let m = self.symbols.len();
        let c = self.current;
        if steps >= 0 {
            let s = (steps as usize) % m;
            proof {
                lemma_add_mod_noop_right(c as int, steps as int, m as int);
                lemma_mod_pos_bound(c as int + s as int, m as int);
            }
            self.current = ((c as u128 + s as u128) % (m as u128)) as usize;
        } else {
            let n: u128 = (-(steps as i128)) as u128;
            let u = (n % (m as u128)) as usize;
            proof {
                lemma_sub_mod_noop_right(c as int, n as int, m as int);
                lemma_mod_add_multiples_vanish(c as int - u as int, m as int);
                lemma_mod_pos_bound(c as int + m as int - u as int, m as int);
                assert(c as int + steps as int == c as int - n as int);
            }
            self.current = ((c as u128 + m as u128 - u as u128) % (m as u128)) as usize;
        }
    }

    /// The two glyphs to show: the done glyph twice when loaded; otherwise
    /// the spinner turns one step and shows the glyph half a turn ahead,
    /// then the current one.
    pub fn get_icons(&mut self, is_loaded: bool) -> (r: (char, char))
        requires
            old(self).wf(),
        ensures
            final(self).wf(),
            is_loaded ==> r == (old(self).done, old(self).done) && final(self).current == old(self).current,
            !is_loaded ==> final(self).current as int == (old(self).current as int + 1) % (old(
                self,
            ).symbols@.len() as int) && r == (
                old(self).symbols@[(final(self).current as int + old(self).symbols@.len() / 2)
                    % (old(self).symbols@.len() as int)],
                old(self).symbols@[final(self).current as int],
            ),
            final(self).symbols == old(self).symbols,
    {
        if is_loaded {
            return (self.done, self.done);
        }
        self.move_position(1);
        let right_symbol = self.symbols[self.current];
        let n = self.symbols.len();
        let left_symbol_index = ((self.current as u128 + (n / 2) as u128) % (n as u128)) as usize;
        let left_symbol = self.symbols[left_symbol_index];
        (left_symbol, right_symbol)
    }
}

} // verus!
