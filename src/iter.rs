use crate::generator::BlackRockGenerator;
use vstd::prelude::*;

verus! {

/// A cursor over the shuffled sequence `shuffle(0), shuffle(1), ...,
/// shuffle(range - 1)`, consumed from either end.
///
/// The indices not yet handed out are `[start, end)`; the value handed out
/// for index `i` is the generator's `shuffle(i)`.
pub struct BlackRockIter {
    start: u64,
    end: u64,
    generator: BlackRockGenerator,
}

impl Default for BlackRockIter {
    /// An exhausted cursor over the empty range.
    fn default() -> (it: Self)
        ensures
            it.wf(),
            it.spec_start() == 0,
            it.spec_end() == 0,
    {
        Self::with_seed_and_rounds(0, 0, 0)
    }
}

impl BlackRockIter {
    /// First index not yet handed out from the front.
    pub closed spec fn spec_start(&self) -> u64 {
        self.start
    }

    /// One past the last index not yet handed out from the back.
    pub closed spec fn spec_end(&self) -> u64 {
        self.end
    }

    /// The permutation that the cursor walks.
    pub closed spec fn spec_generator(&self) -> BlackRockGenerator {
        self.generator
    }

    /// The remaining indices lie inside the generator's domain.
    pub closed spec fn wf(&self) -> bool {
        &&& self.generator.wf()
        &&& self.start <= self.end <= self.generator.spec_range()
    }

    /// The value handed out for index `i`.
    pub open spec fn value_at(&self, i: int) -> int {
        self.spec_generator().spec_shuffle(i)
    }

    /// A cursor over every index of `generator`'s domain.
    fn over(generator: BlackRockGenerator, range: u64) -> (it: Self)
        requires
            generator.wf(),
            generator.spec_range() == range,
        ensures
            it.wf(),
            it.spec_start() == 0,
            it.spec_end() == range,
            it.spec_generator() == generator,
    {
        BlackRockIter { start: 0, end: range, generator }
    }

    /// A cursor over the whole permutation of `[0, range)` keyed by `seed`,
    /// with `rounds` Feistel rounds.
    pub fn with_seed_and_rounds(range: u64, seed: u64, rounds: usize) -> (it: Self)
        ensures
            it.wf(),
            it.spec_start() == 0,
            it.spec_end() == range,
            it.spec_generator().spec_range() == range,
            it.spec_generator().spec_seed() == seed,
            it.spec_generator().spec_rounds() == rounds,
    {
        Self::over(BlackRockGenerator::with_seed_and_rounds(range, seed, rounds), range)
    }

    /// A cursor over the permutation keyed by `seed`, with three rounds.
    pub fn with_seed(range: u64, seed: u64) -> (it: Self)
        ensures
            it.wf(),
            it.spec_start() == 0,
            it.spec_end() == range,
            it.spec_generator().spec_range() == range,
            it.spec_generator().spec_seed() == seed,
            it.spec_generator().spec_rounds() == 3,
    {
        Self::over(BlackRockGenerator::with_seed(range, seed), range)
    }

    /// A cursor over a permutation with a random seed and `rounds` rounds.
    pub fn with_rounds(range: u64, rounds: usize) -> (it: Self)
        ensures
            it.wf(),
            it.spec_start() == 0,
            it.spec_end() == range,
            it.spec_generator().spec_range() == range,
            it.spec_generator().spec_rounds() == rounds,
    {
        Self::over(BlackRockGenerator::with_rounds(range, rounds), range)
    }

    /// A cursor over a permutation with a random seed and three rounds.
    pub fn new(range: u64) -> (it: Self)
        ensures
            it.wf(),
            it.spec_start() == 0,
            it.spec_end() == range,
            it.spec_generator().spec_range() == range,
            it.spec_generator().spec_rounds() == 3,
    {
        Self::over(BlackRockGenerator::new(range), range)
    }

    /// Hands out the value of the first remaining index, if any.
    pub fn next(&mut self) -> (r: Option<u64>)
        requires
            old(self).wf(),
        ensures
            final(self).wf(),
            final(self).spec_generator() == old(self).spec_generator(),
            final(self).spec_end() == old(self).spec_end(),
            old(self).spec_start() < old(self).spec_end() ==> {
                &&& r == Some(old(self).value_at(old(self).spec_start() as int) as u64)
                &&& final(self).spec_start() == old(self).spec_start() + 1
            },
            old(self).spec_start() >= old(self).spec_end() ==> {
                &&& r is None
                &&& final(self).spec_start() == old(self).spec_start()
            },
    {
        if self.start < self.end {
            let i = self.start;
            self.start = i + 1;
            Some(self.generator.shuffle(i))
        } else {
            None
        }
    }

    /// Hands out the value of the last remaining index, if any.
    pub fn next_back(&mut self) -> (r: Option<u64>)
        requires
            old(self).wf(),
        ensures
            final(self).wf(),
            final(self).spec_generator() == old(self).spec_generator(),
            final(self).spec_start() == old(self).spec_start(),
            old(self).spec_start() < old(self).spec_end() ==> {
                &&& r == Some(old(self).value_at(old(self).spec_end() - 1) as u64)
                &&& final(self).spec_end() == old(self).spec_end() - 1
            },
            old(self).spec_start() >= old(self).spec_end() ==> {
                &&& r is None
                &&& final(self).spec_end() == old(self).spec_end()
            },
    {
        if self.start < self.end {
            let i = self.end - 1;
            self.end = i;
            Some(self.generator.shuffle(i))
        } else {
            None
        }
    }

    /// Skips `n` remaining indices from the front and hands out the value of
    /// the next one; when fewer than `n + 1` remain, empties the cursor.
    pub fn nth(&mut self, n: usize) -> (r: Option<u64>)
        requires
            old(self).wf(),
        ensures
            final(self).wf(),
            final(self).spec_generator() == old(self).spec_generator(),
            final(self).spec_end() == old(self).spec_end(),
            old(self).spec_start() + n < old(self).spec_end() ==> {
                &&& r == Some(old(self).value_at(old(self).spec_start() + n) as u64)
                &&& final(self).spec_start() == old(self).spec_start() + n + 1
            },
            old(self).spec_start() + n >= old(self).spec_end() ==> {
                &&& r is None
                &&& final(self).spec_start() == old(self).spec_end()
            },
    {
        if (n as u64) < self.end - self.start {
            let i = self.start + n as u64;
            self.start = i + 1;
            Some(self.generator.shuffle(i))
        } else {
            self.start = self.end;
            None
        }
    }

    /// Skips `n` remaining indices from the back and hands out the value of
    /// the one before them; when fewer than `n + 1` remain, empties the cursor.
    pub fn nth_back(&mut self, n: usize) -> (r: Option<u64>)
        requires
            old(self).wf(),
        ensures
            final(self).wf(),
            final(self).spec_generator() == old(self).spec_generator(),
            final(self).spec_start() == old(self).spec_start(),
            old(self).spec_start() + n < old(self).spec_end() ==> {
                &&& r == Some(old(self).value_at(old(self).spec_end() - n - 1) as u64)
                &&& final(self).spec_end() == old(self).spec_end() - n - 1
            },
            old(self).spec_start() + n >= old(self).spec_end() ==> {
                &&& r is None
                &&& final(self).spec_end() == old(self).spec_start()
            },
    {
        if (n as u64) < self.end - self.start {
            let i = self.end - n as u64 - 1;
            self.end = i;
            Some(self.generator.shuffle(i))
        } else {
            self.end = self.start;
            None
        }
    }

    /// The number of values left, as a lower bound and, when it fits in a
    /// `usize`, an exact upper bound.
    pub fn size_hint(&self) -> (r: (usize, Option<usize>))
        requires
            self.wf(),
        ensures
            self.spec_end() - self.spec_start() <= usize::MAX ==> r == (
            (self.spec_end() - self.spec_start()) as usize,
            Some((self.spec_end() - self.spec_start()) as usize),
            ),
            self.spec_end() - self.spec_start() > usize::MAX ==> r == (usize::MAX, None::<usize>),
    {
        let n = self.end - self.start;
        if n <= usize::MAX as u64 {
            (n as usize, Some(n as usize))
        } else {
            (usize::MAX, None)
        }
    }

    /// The number of values left.
    pub fn count(self) -> (r: usize)
        requires
            self.wf(),
            self.spec_end() - self.spec_start() <= usize::MAX,
        ensures
            r == self.spec_end() - self.spec_start(),
    {
        (self.end - self.start) as usize
    }
}

/// The four octets, most significant first, of the 32-bit value `x`.
pub open spec fn octets(x: int) -> Seq<u8> {
    seq![
        (x / 0x100_0000) as u8,
        ((x / 0x1_0000) % 0x100) as u8,
        ((x / 0x100) % 0x100) as u8,
        (x % 0x100) as u8,
    ]
}

/// The octets of an IPv4 address whose 32 bits, in network byte order, are `x`.
pub fn to_ip(x: u64) -> (r: [u8; 4])
    requires
        x < 0x1_0000_0000,
    ensures
        r@ == octets(x as int),
{
    let r = [
        (x / 0x100_0000) as u8,
        ((x / 0x1_0000) % 0x100) as u8,
        ((x / 0x100) % 0x100) as u8,
        (x % 0x100) as u8,
    ];
    assert(r@ =~= octets(x as int));
    r
}

/// A cursor over every IPv4 address, in shuffled order, as octets.
pub struct BlackRockIpGenerator(BlackRockIter);

impl Default for BlackRockIpGenerator {
    /// A cursor over all addresses with a random seed, as [`BlackRockIpGenerator::new`].
    fn default() -> (g: Self)
        ensures
            g.wf(),
            g.spec_iter().spec_start() == 0,
            g.spec_iter().spec_end() == 0x1_0000_0000,
    {
        Self::new()
    }
}

impl BlackRockIpGenerator {
    /// The underlying cursor over `[0, 2^32)`.
    pub closed spec fn spec_iter(&self) -> BlackRockIter {
        self.0
    }

    /// The underlying cursor walks the whole address space.
    pub closed spec fn wf(&self) -> bool {
        &&& self.0.wf()
        &&& self.0.spec_generator().spec_range() == 0x1_0000_0000
    }

    /// A cursor over all `2^32` addresses with a random seed and three rounds.
    pub fn new() -> (g: Self)
        ensures
            g.wf(),
            g.spec_iter().spec_start() == 0,
            g.spec_iter().spec_end() == 0x1_0000_0000,
            g.spec_iter().spec_generator().spec_rounds() == 3,
    {
        let range: u64 = 1u64 << 32;
        assert(range == 0x1_0000_0000) by (bit_vector)
            requires
                range == 1u64 << 32,
        ;
        BlackRockIpGenerator(BlackRockIter::new(range))
    }

    /// The octets of a handed-out value.
    fn address(x: Option<u64>) -> (r: Option<[u8; 4]>)
        requires
            x is Some ==> x->0 < 0x1_0000_0000,
        ensures
            x is None ==> r is None,
            x is Some ==> r is Some && r->0@ == octets(x->0 as int),
    {
        match x {
            Some(v) => Some(to_ip(v)),
            None => None,
        }
    }

    /// Hands out the first remaining address, if any.
    pub fn next(&mut self) -> (r: Option<[u8; 4]>)
        requires
            old(self).wf(),
        ensures
            final(self).wf(),
            ({
                let it = old(self).spec_iter();
                &&& final(self).spec_iter().spec_generator() == it.spec_generator()
                &&& final(self).spec_iter().spec_end() == it.spec_end()
                &&& it.spec_start() < it.spec_end() ==> {
                    &&& r is Some
                    &&& r->0@ == octets(it.value_at(it.spec_start() as int))
                    &&& final(self).spec_iter().spec_start() == it.spec_start() + 1
                }
                &&& it.spec_start() >= it.spec_end() ==> r is None
            }),
    {
        let x = self.0.next();
        proof {
            if x is Some {
                self.0.spec_generator().lemma_shuffle_range(old(self).0.spec_start() as int);
            }
        }
        Self::address(x)
    }

    /// Hands out the last remaining address, if any.
    pub fn next_back(&mut self) -> (r: Option<[u8; 4]>)
        requires
            old(self).wf(),
        ensures
            final(self).wf(),
            ({
                let it = old(self).spec_iter();
                &&& final(self).spec_iter().spec_generator() == it.spec_generator()
                &&& final(self).spec_iter().spec_start() == it.spec_start()
                &&& it.spec_start() < it.spec_end() ==> {
                    &&& r is Some
                    &&& r->0@ == octets(it.value_at(it.spec_end() - 1))
                    &&& final(self).spec_iter().spec_end() == it.spec_end() - 1
                }
                &&& it.spec_start() >= it.spec_end() ==> r is None
            }),
    {
        let x = self.0.next_back();
        proof {
            if x is Some {
                self.0.spec_generator().lemma_shuffle_range(old(self).0.spec_end() - 1);
            }
        }
        Self::address(x)
    }

    /// Skips `n` remaining addresses from the front and hands out the next
    /// one; when fewer than `n + 1` remain, empties the cursor.
    pub fn nth(&mut self, n: usize) -> (r: Option<[u8; 4]>)
        requires
            old(self).wf(),
        ensures
            final(self).wf(),
            ({
                let it = old(self).spec_iter();
                &&& final(self).spec_iter().spec_generator() == it.spec_generator()
                &&& final(self).spec_iter().spec_end() == it.spec_end()
                &&& it.spec_start() + n < it.spec_end() ==> {
                    &&& r is Some
                    &&& r->0@ == octets(it.value_at(it.spec_start() + n))
                    &&& final(self).spec_iter().spec_start() == it.spec_start() + n + 1
                }
                &&& it.spec_start() + n >= it.spec_end() ==> {
                    &&& r is None
                    &&& final(self).spec_iter().spec_start() == it.spec_end()
                }
            }),
    {
        let x = self.0.nth(n);
        proof {
            if x is Some {
                self.0.spec_generator().lemma_shuffle_range(old(self).0.spec_start() + n);
            }
        }
        Self::address(x)
    }

    /// Skips `n` remaining addresses from the back and hands out the one
    /// before them; when fewer than `n + 1` remain, empties the cursor.
    pub fn nth_back(&mut self, n: usize) -> (r: Option<[u8; 4]>)
        requires
            old(self).wf(),
        ensures
            final(self).wf(),
            ({
                let it = old(self).spec_iter();
                &&& final(self).spec_iter().spec_generator() == it.spec_generator()
                &&& final(self).spec_iter().spec_start() == it.spec_start()
                &&& it.spec_start() + n < it.spec_end() ==> {
                    &&& r is Some
                    &&& r->0@ == octets(it.value_at(it.spec_end() - n - 1))
                    &&& final(self).spec_iter().spec_end() == it.spec_end() - n - 1
                }
                &&& it.spec_start() + n >= it.spec_end() ==> {
                    &&& r is None
                    &&& final(self).spec_iter().spec_end() == it.spec_start()
                }
            }),
    {
        let x = self.0.nth_back(n);
        proof {
            if x is Some {
                self.0.spec_generator().lemma_shuffle_range(old(self).0.spec_end() - n - 1);
            }
        }
        Self::address(x)
    }

    /// The number of addresses left, as in [`BlackRockIter::size_hint`].
    pub fn size_hint(&self) -> (r: (usize, Option<usize>))
        requires
            self.wf(),
        ensures
            ({
                let it = self.spec_iter();
                &&& it.spec_end() - it.spec_start() <= usize::MAX ==> r == (
                (it.spec_end() - it.spec_start()) as usize,
                Some((it.spec_end() - it.spec_start()) as usize),
                )
                &&& it.spec_end() - it.spec_start() > usize::MAX ==> r == (usize::MAX, None::<usize>)
            }),
    {
        self.0.size_hint()
    }

    /// The number of addresses left.
    pub fn count(self) -> (r: usize)
        requires
            self.wf(),
            self.spec_iter().spec_end() - self.spec_iter().spec_start() <= usize::MAX,
        ensures
            r == self.spec_iter().spec_end() - self.spec_iter().spec_start(),
    {
        self.0.count()
    }
}

} // verus!
