//! Waking a user's device: whether and through which gateway.

use super::bytes::be_nat;
use super::wire::same_array;
use super::{Dht, DhtView, GatewayDescriptor};
use vstd::arithmetic::power2::{lemma2_to64, lemma_pow2_adds, lemma_pow2_pos, pow2};
use vstd::prelude::*;

verus! {

/// `r` is the pseudonym that is kept for a user: that of the first entry.
pub open spec fn is_pseudonym(map: Seq<([u8; 32], [u8; 32])>, user: [u8; 32], r: Option<[u8; 32]>) -> bool {
    match r {
        Some(p) => exists|i: int|
            {
                &&& 0 <= i < map.len()
                &&& #[trigger] map[i] == (user, p)
                &&& forall|j: int| 0 <= j < i ==> (#[trigger] map[j]).0 != user
            },
        None => forall|i: int| 0 <= i < map.len() ==> (#[trigger] map[i]).0 != user,
    }
}

/// The pseudonym that is kept for a user.
fn pseudonym_of(map: &Vec<([u8; 32], [u8; 32])>, user: &[u8; 32]) -> (r: Option<[u8; 32]>)
    ensures
        is_pseudonym(map@, *user, r),
{
    let mut i: usize = 0;
    while i < map.len()
        invariant
            0 <= i <= map.len(),
            forall|j: int| 0 <= j < i ==> (#[trigger] map@[j]).0 != *user,
        decreases map.len() - i,
    {
        if same_array(&map[i].0, user) {
            assert(map@[i as int] == (*user, map@[i as int].1));
            return Some(map[i].1);
        }
        i = i + 1;
    }
    None
}

/// A wake that is to be sent.
#[derive(Clone, Copy, Debug)]
pub struct Wake {
    /// Handle of the endpoint that dials the gateway.
    pub endpoint: u64,
    pub gateway: GatewayDescriptor,
    pub pseudonym: [u8; 32],
}

impl Dht {
    /// The wake of a user's device, where this relay has a pseudonym of it, an
    /// endpoint to dial with, and knows a gateway: the first one is used.
    pub fn trigger_wake(&self, recipient_ipk: &[u8; 32]) -> (r: Option<Wake>)
        ensures
            match r {
                Some(w) => {
                    &&& self@.push_pseudonyms is Some
                    &&& is_pseudonym(self@.push_pseudonyms->0, *recipient_ipk, Some(w.pseudonym))
                    &&& self@.endpoint == Some(w.endpoint)
                    &&& self@.push_gateways.len() > 0
                    &&& w.gateway == self@.push_gateways[0]
                },
                None => {
                    ||| self@.push_pseudonyms is None
                    ||| self@.endpoint is None
                    ||| is_pseudonym(self@.push_pseudonyms->0, *recipient_ipk, None)
                    ||| self@.push_gateways.len() == 0
                },
            },
    {
        let endpoint: u64 = match self.endpoint {
            Some(e) => e,
            None => {
                return None;
            },
        };
        let pseudonym: [u8; 32] = match &self.push_pseudonyms {
            None => {
                return None;
            },
            Some(map) => match pseudonym_of(map, recipient_ipk) {
                Some(p) => p,
                None => {
                    return None;
                },
            },
        };
        if self.push_gateways.len() == 0 {
            return None;
        }
        Some(Wake { endpoint, gateway: self.push_gateways[0], pseudonym })
    }

    /// Takes the gateways that the resolver listed, in place of those known
    /// before. A listing that failed (`None`) changes nothing.
    pub fn refresh_gateways(&mut self, listed: Option<Vec<GatewayDescriptor>>)
        requires
            old(self).wf(),
        ensures
            final(self).wf(),
            final(self)@ == (match listed {
                Some(gws) => DhtView { push_gateways: gws@, ..old(self)@ },
                None => old(self)@,
            }),
    {
        if let Some(gws) = listed {
            self.push_gateways = gws;
        }
    }
}

/// Bit `n` of capabilities is set. The bytes are a number, the most
/// significant first; bits beyond it are not set.
pub open spec fn is_capable(bits: Seq<u8>, n: nat) -> bool {
    n / 8 < bits.len() && (bits[bits.len() - 1 - n / 8] >> (n % 8)) & 1 == 1
}

/// Whether bit `n` of capabilities is set.
pub fn has_capability(bits: &[u8], n: usize) -> (r: bool)
    ensures
        r == is_capable(bits@, n as nat),
{
    let byte: usize = n / 8;
    if byte >= bits.len() {
        return false;
    }
    let shift: usize = n % 8;
    (bits[bits.len() - 1 - byte] >> shift) & 1 == 1
}

/// Why a wake is not handed to the node that was dialled.
#[derive(Clone, Copy, Debug, PartialEq, Eq, Structural)]
pub enum WakeRefusal {
    /// Its certificate says nothing of capabilities.
    NoCapabilities,
    /// Its certificate does not say that it is a push gateway.
    NotAGateway,
}

/// A wake is handed only to a node whose certificate says that it is a push
/// gateway; `is_gateway` is what the certificate says, where it says anything.
pub fn admit_gateway(is_gateway: Option<bool>) -> (r: Result<(), WakeRefusal>)
    ensures
        r == (match is_gateway {
            None => Err(WakeRefusal::NoCapabilities),
            Some(false) => Err(WakeRefusal::NotAGateway),
            Some(true) => Ok(()),
        }),
{
    match is_gateway {
        None => Err(WakeRefusal::NoCapabilities),
        Some(g) => if g {
            Ok(())
        } else {
            Err(WakeRefusal::NotAGateway)
        },
    }
}

/// Capabilities are the bits of a number: bit `n` of the bytes is the binary
/// digit with the weight of two to the `n`.
pub proof fn law_capabilities_are_binary_digits(bits: Seq<u8>, n: nat)
    ensures
        is_capable(bits, n) <==> (be_nat(bits) / pow2(n)) % 2 == 1,
    decreases n,
{
    lemma_pow2_pos(n);
    if bits.len() == 0 {
        assert(0nat / pow2(n) == 0) by {
            vstd::arithmetic::div_mod::lemma_basic_div(0, pow2(n) as int);
        }
    } else if n >= 8 {
        let m = (n - 8) as nat;
        let head = bits.drop_last();
        law_capabilities_are_binary_digits(head, m);
        lemma_pow2_pos(m);
        lemma_pow2_adds(8, m);
        lemma2_to64();
        assert(be_nat(bits) / 256 == be_nat(head));
        vstd::arithmetic::div_mod::lemma_div_denominator(be_nat(bits) as int, 256, pow2(m) as int);
        assert(m / 8 == n / 8 - 1 && m % 8 == n % 8);
        if n / 8 < bits.len() {
            assert(bits[bits.len() - 1 - n / 8] == head[head.len() - 1 - m / 8]);
        }
    } else {
        lemma_low_digit(be_nat(bits.drop_last()), bits.last(), n as u8);
        assert(n / 8 == 0 && n % 8 == n);
        assert(bits[bits.len() - 1 - n / 8] == bits.last());
    }
}

/// The lowest eight digits of a number are those of its last byte.
proof fn lemma_low_digit(q: nat, b: u8, k: u8)
    requires
        k < 8,
    ensures
        (b >> k) & 1u8 == 1u8 <==> ((q * 256 + b as nat) / pow2(k as nat)) % 2 == 1,
{
    let p = pow2(k as nat) as int;
    let half = pow2((7 - k) as nat) as int;
    lemma_pow2_pos(k as nat);
    lemma_pow2_adds(k as nat, (8 - k) as nat);
    lemma_pow2_adds(1, (7 - k) as nat);
    assert(pow2(8) == 256 && pow2(1) == 2) by {
        lemma2_to64();
    }
    let x = b as int;
    let m = q * half;
    assert(x + (2 * m) * p == q * 256 + x) by (nonlinear_arith)
        requires
            m == q * half,
            p * (2 * half) == 256,
    ;
    vstd::arithmetic::div_mod::lemma_hoist_over_denominator(x, 2 * m, p as nat);
    vstd::bits::lemma_u8_shr_is_div(b, k);
    let y = b >> k;
    assert(y & 1u8 == y % 2u8) by (bit_vector);
}

/// A user has one pseudonym: that of the first entry with the user's key.
pub proof fn law_one_pseudonym(map: Seq<([u8; 32], [u8; 32])>, user: [u8; 32], r: Option<[u8; 32]>, i: int)
    requires
        is_pseudonym(map, user, r),
        0 <= i < map.len(),
        map[i].0 == user,
        forall|j: int| 0 <= j < i ==> (#[trigger] map[j]).0 != user,
    ensures
        r == Some(map[i].1),
{
    if let Some(p) = r {
        let k = choose|k: int|
            {
                &&& 0 <= k < map.len()
                &&& #[trigger] map[k] == (user, p)
                &&& forall|j: int| 0 <= j < k ==> (#[trigger] map[j]).0 != user
            };
        assert(map[k].0 == user);
        assert(map[i].0 == user);
        assert(k == i);
    }
}

} // verus!
