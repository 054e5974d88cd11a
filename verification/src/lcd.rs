use vstd::prelude::*;

verus! {

/// A word register of the LCD memory that the display logic writes.
///
/// `M2` .. `M18` stand for the peripheral's `LCDM2W` .. `LCDM18W` words.
#[derive(Clone, Copy, Debug, PartialEq, Eq, Structural)]
pub enum LcdWord {
    M2,
    M4,
    M6,
    M8,
    M10,
    M18,
}

/// One write of a whole 16-bit value into an LCD memory word.
#[derive(Clone, Copy, Debug, PartialEq, Eq, Structural)]
pub struct LcdWrite {
    pub word: LcdWord,
    pub bits: u16,
}

/// The LCD memory as the display logic sees it: the writes it has issued,
/// oldest first. Replaying them in order onto the peripheral gives the
/// displayed state.
pub struct Lcd {
    writes: Vec<LcdWrite>,
}

/// The value that a word holds after `writes`, or `None` when none of them
/// touched it: the last write to that word wins.
pub open spec fn last_write(writes: Seq<LcdWrite>, word: LcdWord) -> Option<u16>
    decreases writes.len(),
{
    if writes.len() == 0 {
        None
    } else if writes.last().word == word {
        Some(writes.last().bits)
    } else {
        last_write(writes.drop_last(), word)
    }
}

impl View for Lcd {
    type V = Seq<LcdWrite>;

    closed spec fn view(&self) -> Seq<LcdWrite> {
        self.writes@
    }
}

impl Lcd {
    /// An LCD memory on which nothing has been written yet.
    pub fn new() -> (lcd: Lcd)
        ensures
            lcd@ == Seq::<LcdWrite>::empty(),
    {
        Lcd { writes: Vec::new() }
    }

    /// Writes `bits` into `word`, replacing its whole value.
    pub fn set_word(&mut self, word: LcdWord, bits: u16)
        ensures
            final(self)@ == old(self)@.push(LcdWrite { word, bits }),
    {
        self.writes.push(LcdWrite { word, bits });
    }

    /// The number of writes issued so far.
    pub fn len(&self) -> (n: usize)
        ensures
            n == self@.len(),
    {
        self.writes.len()
    }

    /// The `i`-th write, oldest first.
    pub fn get(&self, i: usize) -> (w: LcdWrite)
        requires
            i < self@.len(),
        ensures
            w == self@[i as int],
    {
        self.writes[i]
    }

    /// What `word` holds after all writes so far, `None` if it was never written.
    pub fn shown(&self, word: LcdWord) -> (r: Option<u16>)
        ensures
            r == last_write(self@, word),
    {
        let mut i: usize = self.writes.len();
        proof {
            assert(self.writes@.take(i as int) =~= self.writes@);
        }
        while i > 0
            invariant
                i <= self.writes@.len(),
                last_write(self.writes@, word) == last_write(self.writes@.take(i as int), word),
            decreases i,
        {
            let w = self.writes[i - 1];
            proof {
                let t = self.writes@.take(i as int);
                assert(t.drop_last() == self.writes@.take(i - 1));
            }
            if w.word == word {
                return Some(w.bits);
            }
            i = i - 1;
        }
        proof {
            assert(self.writes@.take(0) =~= Seq::<LcdWrite>::empty());
        }
        None
    }
}

} // verus!
