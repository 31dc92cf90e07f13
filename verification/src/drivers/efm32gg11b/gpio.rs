//! The pins of the EFM32GG11B: a registry that hands out each pin once,
//! and pins whose mode is part of their type.
use core::marker::PhantomData;
use vstd::prelude::*;

verus! {

/// Pin mode typestate: the pin is disabled or not yet configured.
pub struct NotConfigured;

/// Pin mode typestate: the pin is enabled as an input.
pub struct Input;

/// Pin mode typestate: the pin is enabled as a push-pull output.
pub struct Output;

/// Pin mode typestate: the pin serves the peripheral function `AF`.
pub struct AlternateFunction<const AF: u8>;

/// The letter of the first port.
pub const FIRST_PORT: u8 = 65;

/// Number of ports, which bear the letters from `A` on.
pub const PORT_COUNT: u8 = 12;

/// Number of pins of a port.
pub const PINS_PER_PORT: u8 = 16;

/// Whether the chip has a pin `index` on the port with the letter `port`.
pub open spec fn is_pin(port: u8, index: u8) -> bool {
    FIRST_PORT <= port < FIRST_PORT + PORT_COUNT && index < PINS_PER_PORT
}

/// Bit representation of pin modes.
#[derive(Clone, Copy, Debug, PartialEq, Eq, Structural)]
pub enum Mode {
    Disabled,
    Input,
    PushPullOutput,
}

/// The bits that select a mode take up four bits of a mode register.
pub const MODE_MASK: u32 = 0b1111;

impl Mode {
    /// The bits that select the mode in a mode register.
    pub open spec fn spec_bits(self) -> u32 {
        match self {
            Mode::Disabled => 0,
            Mode::Input => 1,
            Mode::PushPullOutput => 4,
        }
    }

    pub fn bits(self) -> (bits: u32)
        ensures
            bits == self.spec_bits(),
    {
        match self {
            Mode::Disabled => 0,
            Mode::Input => 1,
            Mode::PushPullOutput => 4,
        }
    }
}

/// Generic pin. Modes are defined via typestate. A pin holds nothing: it
/// stands for the exclusive right to one pin of the chip.
pub struct Pin<MODE, const PORT: u8, const INDEX: u8> {
    _marker: PhantomData<MODE>,
}

impl<MODE, const PORT: u8, const INDEX: u8> Pin<MODE, PORT, INDEX> {
    /// Only the registry makes pins, so that there is one of each.
    pub(crate) fn new() -> Self {
        Pin { _marker: PhantomData }
    }

    /// The pin as an input, and what the mode register of the pin has to
    /// hold for that, given what it holds: the four bits of the pin hold 1,
    /// all other bits stay.
    pub fn as_input(self, register: u32) -> (result: (Pin<Input, PORT, INDEX>, u32))
        ensures
            (result.1 >> ((4 * (INDEX % 8)) as u32)) & MODE_MASK == 1,
            result.1 & !(MODE_MASK << ((4 * (INDEX % 8)) as u32)) == register & !(MODE_MASK << ((4
                * (INDEX % 8)) as u32)),
    {
        (Pin::new(), Self::set_mode(Mode::Input, register))
    }

    /// The pin as a push-pull output, and what the mode register of the
    /// pin has to hold for that, given what it holds: the four bits of the pin
    /// hold 4, all other bits stay.
    pub fn as_output(self, register: u32) -> (result: (Pin<Output, PORT, INDEX>, u32))
        ensures
            (result.1 >> ((4 * (INDEX % 8)) as u32)) & MODE_MASK == 4,
            result.1 & !(MODE_MASK << ((4 * (INDEX % 8)) as u32)) == register & !(MODE_MASK << ((4
                * (INDEX % 8)) as u32)),
    {
        (Pin::new(), Self::set_mode(Mode::PushPullOutput, register))
    }

    /// The pin, disabled, and what the mode register of the pin has to
    /// hold for that, given what it holds: the four bits of the pin hold 0,
    /// all other bits stay. Of a pin that is disabled already the register
    /// stays as it is.
    pub fn as_disabled(self, register: u32) -> (result: (Pin<NotConfigured, PORT, INDEX>, u32))
        ensures
            (result.1 >> ((4 * (INDEX % 8)) as u32)) & MODE_MASK == 0,
            result.1 & !(MODE_MASK << ((4 * (INDEX % 8)) as u32)) == register & !(MODE_MASK << ((4
                * (INDEX % 8)) as u32)),
            (register >> ((4 * (INDEX % 8)) as u32)) & MODE_MASK == 0 ==> result.1 == register,
    {
        let updated = Self::set_mode(Mode::Disabled, register);
        proof {
            let offset: u32 = (4 * (INDEX % 8)) as u32;
            assert(offset <= 28 && (register >> offset) & 0b1111u32 == 0 && (updated >> offset)
                & 0b1111u32 == 0 && updated & !(0b1111u32 << offset) == register & !(0b1111u32
                << offset) ==> updated == register) by (bit_vector);
        }
        (Pin::new(), updated)
    }

    /// Whether the mode of the pin is kept in the high mode register of
    /// its port: the low register holds the modes of the pins 0 to 7.
    pub fn uses_high_register() -> (high: bool)
        ensures
            high == (INDEX >= 8),
    {
        INDEX >= 8
    }

    /// What the mode register of the pin has to hold for the pin to be in
    /// `mode`, given what it holds: the four bits of the pin select the
    /// mode, all other bits stay.
    pub fn set_mode(mode: Mode, register: u32) -> (updated: u32)
        ensures
            (updated >> ((4 * (INDEX % 8)) as u32)) & MODE_MASK == mode.spec_bits(),
            updated & !(MODE_MASK << ((4 * (INDEX % 8)) as u32)) == register & !(MODE_MASK << ((4
                * (INDEX % 8)) as u32)),
    {
        let offset: u32 = (4 * (INDEX % 8)) as u32;
        let mask = MODE_MASK;
        let bits = mode.bits();
        let updated = (register & !(mask << offset)) | (bits << offset);
        proof {
            assert(offset == 4 * (INDEX % 8));
            assert(bits < 16);
            assert(offset <= 28 && bits < 16 ==> (((register & !(0b1111u32 << offset)) | (bits
                << offset)) >> offset) & 0b1111u32 == bits) by (bit_vector);
            assert(offset <= 28 && bits < 16 ==> ((register & !(0b1111u32 << offset)) | (bits
                << offset)) & !(0b1111u32 << offset) == register & !(0b1111u32 << offset))
                by (bit_vector);
        }
        updated
    }
}

/// Whether bit `index` of `bits` is set.
pub open spec fn has_bit(bits: u16, index: u8) -> bool {
    (bits >> index) & 1u16 == 1u16
}

/// The registry of the pins of the chip. It keeps one bit for each pin: the
/// bit is set once the pin has been handed out, and stays set.
pub struct Gpio {
    claimed: Vec<u16>,
}

impl View for Gpio {
    type V = Set<(u8, u8)>;

    /// The pins that have been handed out, each by the letter of its port
    /// and its index.
    closed spec fn view(&self) -> Set<(u8, u8)> {
        Set::new(
            |pin: (u8, u8)|
                is_pin(pin.0, pin.1) && has_bit(self.claimed@[pin.0 - FIRST_PORT], pin.1),
        )
    }
}

/// The pins handed out after the requests `requests` were made of a
/// registry that had handed out none, in this order.
pub open spec fn claimed_after(requests: Seq<(u8, u8)>) -> Set<(u8, u8)>
    decreases requests.len(),
{
    if requests.len() == 0 {
        Set::empty()
    } else if is_pin(requests.last().0, requests.last().1) {
        claimed_after(requests.drop_last()).insert(requests.last())
    } else {
        claimed_after(requests.drop_last())
    }
}

/// Whether request number `k` of `requests` is granted: it is if the chip
/// has the pin, and no earlier request was for it.
pub open spec fn granted(requests: Seq<(u8, u8)>, k: int) -> bool {
    is_pin(requests[k].0, requests[k].1) && !claimed_after(requests.take(k)).contains(requests[k])
}

/// A pin that was requested stays handed out, whatever is requested after
/// it.
pub proof fn lemma_claimed_stays(requests: Seq<(u8, u8)>, k: int)
    requires
        0 <= k < requests.len(),
        is_pin(requests[k].0, requests[k].1),
    ensures
        claimed_after(requests).contains(requests[k]),
    decreases requests.len(),
{
    if k < requests.len() - 1 {
        let shorter = requests.drop_last();
        assert(shorter[k] == requests[k]);
        lemma_claimed_stays(shorter, k);
    }
}

/// Of the requests for one pin the first is granted and no other, whatever
/// other pins are requested in between.
pub proof fn lemma_claimed_once(requests: Seq<(u8, u8)>, j: int, k: int)
    requires
        0 <= j < k < requests.len(),
        requests[j] == requests[k],
    ensures
        !granted(requests, k),
        is_pin(requests[j].0, requests[j].1) && (forall|i: int|
            0 <= i < j ==> requests[i] != requests[j]) ==> granted(requests, j),
{
    if is_pin(requests[k].0, requests[k].1) {
        let earlier = requests.take(k);
        assert(earlier[j] == requests[j]);
        lemma_claimed_stays(earlier, j);
    }
    if is_pin(requests[j].0, requests[j].1) && (forall|i: int|
        0 <= i < j ==> requests[i] != requests[j]) {
        lemma_unrequested_is_unclaimed(requests.take(j), requests[j]);
    }
}

/// A pin that was never requested has not been handed out.
pub proof fn lemma_unrequested_is_unclaimed(requests: Seq<(u8, u8)>, pin: (u8, u8))
    requires
        forall|i: int| 0 <= i < requests.len() ==> requests[i] != pin,
    ensures
        !claimed_after(requests).contains(pin),
    decreases requests.len(),
{
    if requests.len() > 0 {
        let shorter = requests.drop_last();
        assert forall|i: int| 0 <= i < shorter.len() implies shorter[i] != pin by {
            assert(shorter[i] == requests[i]);
        }
        lemma_unrequested_is_unclaimed(shorter, pin);
        assert(requests.last() == requests[requests.len() - 1]);
    }
}

/// No request is granted for a pin that the chip does not have.
pub proof fn lemma_no_such_pin(requests: Seq<(u8, u8)>, k: int)
    requires
        0 <= k < requests.len(),
        !is_pin(requests[k].0, requests[k].1),
    ensures
        !granted(requests, k),
{
}

impl Gpio {
    #[verifier::type_invariant]
    spec fn has_a_word_for_each_port(self) -> bool {
        self.claimed@.len() == PORT_COUNT
    }

    /// A registry that has handed out no pin.
    pub fn new() -> (gpio: Gpio)
        ensures
            gpio@ == Set::<(u8, u8)>::empty(),
    {
        let mut claimed: Vec<u16> = Vec::new();
        let mut port: u8 = 0;
        while port < PORT_COUNT
            invariant
                port <= PORT_COUNT,
                claimed@.len() == port,
                forall|p: int| 0 <= p < port ==> claimed@[p] == 0,
            decreases PORT_COUNT - port,
        {
            claimed.push(0);
            port += 1;
        }
        let gpio = Gpio { claimed };
        proof {
            assert forall|pin: (u8, u8)| !gpio@.contains(pin) by {
                if is_pin(pin.0, pin.1) {
                    let index = pin.1;
                    assert(index < 16 ==> !((0u16 >> index) & 1u16 == 1u16)) by (bit_vector);
                }
            }
            assert(gpio@ =~= Set::<(u8, u8)>::empty());
        }
        gpio
    }

    /// Marks the pin `INDEX` of the port with the letter `PORT` as handed
    /// out, if the chip has the pin and it has not been handed out before.
    pub fn claim<const PORT: u8, const INDEX: u8>(&mut self) -> (fresh: bool)
        ensures
            fresh == (is_pin(PORT, INDEX) && !old(self)@.contains((PORT, INDEX))),
            final(self)@ == if fresh {
                old(self)@.insert((PORT, INDEX))
            } else {
                old(self)@
            },
    {
        proof {
            use_type_invariant(&*self);
        }
        if PORT < FIRST_PORT || PORT >= FIRST_PORT + PORT_COUNT || INDEX >= PINS_PER_PORT {
            return false;
        }
        let port = (PORT - FIRST_PORT) as usize;
        let bits = self.claimed[port];
        if (bits >> INDEX) & 1u16 == 1u16 {
            return false;
        }
        let ghost before = self.claimed@;
        let updated = bits | (1u16 << INDEX);
        let mut claimed: Vec<u16> = Vec::new();
        let mut p: usize = 0;
        while p < self.claimed.len()
            invariant
                p <= self.claimed@.len(),
                self.claimed@ == before,
                port < before.len(),
                claimed@.len() == p,
                forall|q: int|
                    0 <= q < p ==> claimed@[q] == if q == port {
                        updated
                    } else {
                        before[q]
                    },
            decreases self.claimed@.len() - p,
        {
            if p == port {
                claimed.push(updated);
            } else {
                claimed.push(self.claimed[p]);
            }
            p += 1;
        }
        *self = Gpio { claimed };
        proof {
            let index = INDEX;
            assert forall|pin: (u8, u8)|
                self@.contains(pin) == old(self)@.insert((PORT, INDEX)).contains(pin) by {
                if is_pin(pin.0, pin.1) {
                    let other = pin.1;
                    if pin.0 == PORT {
                        assert(index < 16 && other < 16 ==> (((bits | (1u16 << index)) >> other)
                            & 1u16 == 1u16) == (other == index || (bits >> other) & 1u16 == 1u16))
                            by (bit_vector);
                    }
                }
            }
            assert(self@ =~= old(self)@.insert((PORT, INDEX)));
        }
        true
    }

    /// Hands out the pin `INDEX` of the port with the letter `PORT` as an
    /// input, if the chip has the pin and it has not been handed out before.
    pub fn claim_as_input<const PORT: u8, const INDEX: u8>(&mut self) -> (pin: Option<
        Pin<Input, PORT, INDEX>,
    >)
        ensures
            pin is Some == (is_pin(PORT, INDEX) && !old(self)@.contains((PORT, INDEX))),
            final(self)@ == if pin is Some {
                old(self)@.insert((PORT, INDEX))
            } else {
                old(self)@
            },
    {
        if self.claim::<PORT, INDEX>() {
            Some(Pin::new())
        } else {
            None
        }
    }

    /// Hands out the pin `INDEX` of the port with the letter `PORT` as an
    /// output, if the chip has the pin and it has not been handed out before.
    pub fn claim_as_output<const PORT: u8, const INDEX: u8>(&mut self) -> (pin: Option<
        Pin<Output, PORT, INDEX>,
    >)
        ensures
            pin is Some == (is_pin(PORT, INDEX) && !old(self)@.contains((PORT, INDEX))),
            final(self)@ == if pin is Some {
                old(self)@.insert((PORT, INDEX))
            } else {
                old(self)@
            },
    {
        if self.claim::<PORT, INDEX>() {
            Some(Pin::new())
        } else {
            None
        }
    }

    /// Hands out the pin `INDEX` of the port with the letter `PORT` in the
    /// service of the peripheral function `AF`, if the chip has the pin and
    /// it has not been handed out before.
    pub fn claim_with_alternate_function<const PORT: u8, const INDEX: u8, const AF: u8>(
        &mut self,
    ) -> (pin: Option<Pin<AlternateFunction<AF>, PORT, INDEX>>)
        ensures
            pin is Some == (is_pin(PORT, INDEX) && !old(self)@.contains((PORT, INDEX))),
            final(self)@ == if pin is Some {
                old(self)@.insert((PORT, INDEX))
            } else {
                old(self)@
            },
    {
        if self.claim::<PORT, INDEX>() {
            Some(Pin::new())
        } else {
            None
        }
    }
}

} // verus!
