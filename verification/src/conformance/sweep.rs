//! Inputs for hammering a classifier: numbers that look random, and the byte
//! strings that they choose. One starting state always chooses the same inputs,
//! so what a sweep finds can be found again.

use vstd::prelude::*;

verus! {

/// A stream of numbers that look random.
#[derive(Debug)]
pub struct Numbers {
    /// The number last drawn, or what the stream started from.
    pub state: u64,
}

/// The number that follows another: a 64-bit shift register with exclusive-or
/// taps at 13, 7 and 17.
pub open spec fn number_after(state: u64) -> u64 {
    let a = state ^ (state << 13u64);
    let b = a ^ (a >> 7u64);
    b ^ (b << 17u64)
}

/// The `n`-th number that follows another.
pub open spec fn number_at(state: u64, n: nat) -> u64
    decreases n,
{
    if n == 0 {
        state
    } else {
        number_after(number_at(state, (n - 1) as nat))
    }
}

impl Numbers {
    /// The stream that follows a number.
    pub fn new(state: u64) -> (r: Self)
        ensures
            r.state == state,
    {
        Numbers { state }
    }

    /// The next number.
    pub fn draw(&mut self) -> (r: u64)
        ensures
            r == number_after(old(self).state),
            final(self).state == r,
    {
        let a: u64 = self.state ^ (self.state << 13u64);
        let b: u64 = a ^ (a >> 7u64);
        self.state = b ^ (b << 17u64);
        self.state
    }

    /// The next number, below a limit.
    fn draw_below(&mut self, limit: usize) -> (r: usize)
        requires
            limit > 0,
        ensures
            r == number_after(old(self).state) as int % limit as int,
            r < limit,
            final(self).state == number_after(old(self).state),
    {
        let n = self.draw();
        (n % (limit as u64)) as usize
    }
}

/// The byte that a number picks.
pub open spec fn picked(alphabet: Seq<u8>, number: u64) -> u8 {
    alphabet[number as int % alphabet.len() as int]
}

/// The input that the numbers after one choose: a length below a limit, and then
/// each byte.
pub open spec fn random_text(state: u64, alphabet: Seq<u8>, limit: nat) -> Seq<u8> {
    Seq::new(
        (number_after(state) as nat) % limit,
        |i: int| picked(alphabet, number_at(number_after(state), (i + 1) as nat)),
    )
}

/// A random input over an alphabet, shorter than a limit.
pub fn random_input(numbers: &mut Numbers, alphabet: &[u8], limit: usize) -> (r: Vec<u8>)
    requires
        alphabet@.len() > 0,
        limit > 0,
    ensures
        r@ == random_text(old(numbers).state, alphabet@, limit as nat),
        final(numbers).state == number_at(number_after(old(numbers).state), r@.len()),
{
    let len: usize = numbers.draw_below(limit);
    let ghost start = numbers.state;
    let mut out: Vec<u8> = Vec::new();
    while out.len() < len
        invariant
            out@.len() <= len,
            alphabet@.len() > 0,
            numbers.state == number_at(start, out@.len()),
            forall|i: int|
                0 <= i < out@.len() ==> #[trigger] out@[i] == picked(
                    alphabet@,
                    number_at(start, (i + 1) as nat),
                ),
        decreases len - out@.len(),
    {
        let at: usize = numbers.draw_below(alphabet.len());
        assert(numbers.state == number_at(start, (out@.len() + 1) as nat));
        out.push(alphabet[at]);
    }
    out
}

/// A text with one change, and the number after which it was made: a byte
/// appended, removed or replaced, or the seed appended.
pub open spec fn changed(text: Seq<u8>, seed: Seq<u8>, alphabet: Seq<u8>, state: u64) -> (
    Seq<u8>,
    u64,
) {
    let n = number_after(state);
    let second = number_after(n);
    let third = number_after(second);
    let at = second as int % text.len() as int;
    if n % 4 == 0 {
        (text.push(picked(alphabet, second)), second)
    } else if n % 4 == 1 {
        if text.len() == 0 {
            (text, n)
        } else {
            (text.remove(at), second)
        }
    } else if n % 4 == 2 {
        if text.len() == 0 {
            (text, n)
        } else {
            (text.update(at, picked(alphabet, third)), third)
        }
    } else {
        (text + seed, n)
    }
}

/// A text with some number of changes.
pub open spec fn changed_often(
    seed: Seq<u8>,
    alphabet: Seq<u8>,
    state: u64,
    times: nat,
) -> (Seq<u8>, u64)
    decreases times,
{
    if times == 0 {
        (seed, state)
    } else {
        let (text, last) = changed_often(seed, alphabet, state, (times - 1) as nat);
        changed(text, seed, alphabet, last)
    }
}

fn change(buf: &mut Vec<u8>, seed: &[u8], alphabet: &[u8], numbers: &mut Numbers)
    requires
        alphabet@.len() > 0,
    ensures
        (final(buf)@, final(numbers).state) == changed(
            old(buf)@,
            seed@,
            alphabet@,
            old(numbers).state,
        ),
{
    let kind: usize = numbers.draw_below(4);
    if kind == 0 {
        let at: usize = numbers.draw_below(alphabet.len());
        buf.push(alphabet[at]);
    } else if kind == 1 {
        if buf.len() > 0 {
            let at: usize = numbers.draw_below(buf.len());
            buf.remove(at);
        }
    } else if kind == 2 {
        if buf.len() > 0 {
            let at: usize = numbers.draw_below(buf.len());
            let with: usize = numbers.draw_below(alphabet.len());
            buf.set(at, alphabet[with]);
        }
    } else {
        let ghost text = buf@;
        buf.extend_from_slice(seed);
        assert(buf@ =~= text + seed@);
    }
}

/// A seed with up to three changes.
pub fn mutated_input(numbers: &mut Numbers, seed: &[u8], alphabet: &[u8]) -> (r: Vec<u8>)
    requires
        alphabet@.len() > 0,
    ensures
        (r@, final(numbers).state) == changed_often(
            seed@,
            alphabet@,
            number_after(old(numbers).state),
            (number_after(old(numbers).state) as nat) % 4,
        ),
{
    let times: usize = numbers.draw_below(4);
    let ghost start = numbers.state;
    let mut out: Vec<u8> = Vec::new();
    out.extend_from_slice(seed);
    assert(out@ =~= seed@);
    let mut i: usize = 0;
    while i < times
        invariant
            i <= times,
            alphabet@.len() > 0,
            (out@, numbers.state) == changed_often(seed@, alphabet@, start, i as nat),
        decreases times - i,
    {
        change(&mut out, seed, alphabet, numbers);
        i += 1;
    }
    out
}

/// The first bytes of a pattern that starts over when it ends.
pub fn repeated(pattern: &[u8], len: usize) -> (r: Vec<u8>)
    ensures
        r@ == Seq::new(
            if pattern@.len() == 0 {
                0
            } else {
                len as nat
            },
            |i: int| pattern@[i % pattern@.len() as int],
        ),
{
    let mut out: Vec<u8> = Vec::new();
    if pattern.len() > 0 {
        while out.len() < len
            invariant
                out@.len() <= len,
                pattern@.len() > 0,
                forall|i: int|
                    0 <= i < out@.len() ==> #[trigger] out@[i] == pattern@[i
                        % pattern@.len() as int],
            decreases len - out@.len(),
        {
            out.push(pattern[out.len() % pattern.len()]);
        }
    }
    out
}

} // verus!
