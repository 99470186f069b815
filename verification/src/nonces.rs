//! The numbers that keep the labels of separate macro expansions apart.

use rand::Rng;
use vstd::prelude::*;

verus! {

/// A source of numbers: first those that it was made with, then random ones.
pub struct Nonces {
    supply: Vec<u64>,
    next: usize,
    drawn: Ghost<Seq<u64>>,
}

impl View for Nonces {
    type V = Seq<u64>;

    /// The numbers drawn so far.
    closed spec fn view(&self) -> Seq<u64> {
        self.drawn@
    }
}

/// A random number.
///
/// Calls `rand::thread_rng` and `Rng::gen`; nothing is known of the number.
#[verifier::external_body]
fn random_number() -> (number: u64) {
    rand::thread_rng().gen::<u64>()
}

impl Nonces {
    /// The numbers drawn so far, and behind them those that are certain to come next.
    pub closed spec fn known(&self) -> Seq<u64> {
        if self.next < self.supply@.len() {
            self.drawn@ + self.supply@.skip(self.next as int)
        } else {
            self.drawn@
        }
    }

    /// `later` is this source after some more numbers were drawn from it.
    pub open spec fn leads_to(&self, later: &Self) -> bool {
        &&& self@.is_prefix_of(later@)
        &&& self.known().is_prefix_of(later.known())
        &&& later@.is_prefix_of(later.known())
    }

    /// A source of random numbers only.
    pub fn random() -> (nonces: Self)
        ensures
            nonces@ == Seq::<u64>::empty(),
            nonces.known() == Seq::<u64>::empty(),
    {
        Nonces { supply: Vec::new(), next: 0, drawn: Ghost(Seq::empty()) }
    }

    /// A source that starts with the given numbers.
    pub fn starting_with(supply: Vec<u64>) -> (nonces: Self)
        ensures
            nonces@ == Seq::<u64>::empty(),
            nonces.known() == supply@,
    {
        let nonces = Nonces { supply, next: 0, drawn: Ghost(Seq::empty()) };
        assert(nonces.known() =~= supply@);
        nonces
    }

    /// The next number.
    pub(crate) fn draw(&mut self) -> (number: u64)
        ensures
            final(self)@ == old(self)@.push(number),
            old(self).leads_to(final(self)),
    {
        if self.next < self.supply.len() {
            let number = self.supply[self.next];
            self.next = self.next + 1;
            self.drawn = Ghost(self.drawn@.push(number));
            assert(self.known() =~= old(self).known());
            number
        } else {
            let number = random_number();
            self.drawn = Ghost(self.drawn@.push(number));
            number
        }
    }
}

/// A source from which nothing was drawn leads to itself.
pub proof fn nonces_lead_nowhere(nonces: Nonces)
    ensures
        nonces.leads_to(&nonces),
{
}

/// Drawing can be split into several calls.
pub proof fn nonces_lead_on(first: Nonces, second: Nonces, third: Nonces)
    requires
        first.leads_to(&second),
        second.leads_to(&third),
    ensures
        first.leads_to(&third),
{
}

} // verus!
