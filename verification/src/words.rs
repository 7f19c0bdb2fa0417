//! Fixed-width words of the chain: block and transaction hashes, addresses, nonce keys.

use crate::bytes;
use vstd::prelude::*;

verus! {

/// A 32-byte hash, as its most and least significant 16 bytes.
#[derive(Clone, Copy, Debug, Default, PartialEq, Eq, Structural)]
pub struct B256 {
    pub hi: u128,
    pub lo: u128,
}

/// A 20-byte account address, as its first 4 and last 16 bytes.
#[derive(Clone, Copy, Debug, Default, PartialEq, Eq, Structural)]
pub struct Address {
    pub hi: u32,
    pub lo: u128,
}

/// A 256-bit unsigned number, as its most and least significant 128 bits.
#[derive(Clone, Copy, Debug, Default, PartialEq, Eq, Structural)]
pub struct U256 {
    pub hi: u128,
    pub lo: u128,
}

impl View for B256 {
    type V = B256;

    open spec fn view(&self) -> B256 {
        *self
    }
}

impl B256 {
    /// The 32 bytes of the hash.
    pub open spec fn bytes(self) -> Seq<u8> {
        bytes::be(self.hi as nat, 16) + bytes::be(self.lo as nat, 16)
    }

    /// The hash with these bytes.
    pub fn from_bytes(bytes: &[u8; 32]) -> (r: Self)
        ensures
            r.bytes() == bytes@,
    {
        let hi: u128 = bytes::read_be(bytes, 0, 16);
        let lo: u128 = bytes::read_be(bytes, 16, 16);
        proof {
            bytes::lemma_value_be(bytes@.subrange(0, 16));
            bytes::lemma_value_be(bytes@.subrange(16, 32));
            assert(bytes@ =~= bytes@.subrange(0, 16) + bytes@.subrange(16, 32));
        }
        B256 { hi, lo }
    }

    /// The hash whose 32 bytes all are `byte`.
    pub fn repeat_byte(byte: u8) -> (r: Self)
        ensures
            r.bytes() == Seq::new(32, |i: int| byte),
    {
        let r = Self::from_bytes(&[byte; 32]);
        assert(r.bytes() =~= Seq::new(32, |i: int| byte));
        r
    }

    /// The bytes of the hash.
    pub fn to_array(&self) -> (r: [u8; 32])
        ensures
            r@ == self.bytes(),
    {
        let bytes = self.to_vec();
        proof {
            lemma_hash_len(*self);
        }
        let mut out: [u8; 32] = [0u8; 32];
        let mut i: usize = 0;
        while i < 32
            invariant
                i <= 32,
                bytes@ == self.bytes(),
                bytes@.len() == 32,
                forall|j: int| 0 <= j < i ==> out@[j] == bytes@[j],
            decreases 32 - i,
        {
            out[i] = bytes[i];
            i += 1;
        }
        assert(out@ =~= self.bytes());
        out
    }

    /// The bytes of the hash, in a vector.
    pub fn to_vec(&self) -> (r: Vec<u8>)
        ensures
            r@ == self.bytes(),
    {
        let mut out: Vec<u8> = Vec::new();
        bytes::push_be(&mut out, self.hi, 16);
        bytes::push_be(&mut out, self.lo, 16);
        assert(out@ =~= self.bytes());
        out
    }
}

impl Address {
    /// The 20 bytes of the address.
    pub open spec fn bytes(self) -> Seq<u8> {
        bytes::be(self.hi as nat, 4) + bytes::be(self.lo as nat, 16)
    }

    /// The address with these bytes.
    pub fn from_bytes(bytes: &[u8; 20]) -> (r: Self)
        ensures
            r.bytes() == bytes@,
    {
        let hi: u128 = bytes::read_be(bytes, 0, 4);
        let lo: u128 = bytes::read_be(bytes, 4, 16);
        proof {
            bytes::lemma_span16();
            bytes::lemma_value_be(bytes@.subrange(0, 4));
            bytes::lemma_value_be(bytes@.subrange(4, 20));
            assert(bytes@ =~= bytes@.subrange(0, 4) + bytes@.subrange(4, 20));
        }
        Address { hi: hi as u32, lo }
    }

    /// The address whose 20 bytes all are `byte`.
    pub fn repeat_byte(byte: u8) -> (r: Self)
        ensures
            r.bytes() == Seq::new(20, |i: int| byte),
    {
        let r = Self::from_bytes(&[byte; 20]);
        assert(r.bytes() =~= Seq::new(20, |i: int| byte));
        r
    }

    /// The bytes of the address.
    pub fn to_array(&self) -> (r: [u8; 20])
        ensures
            r@ == self.bytes(),
    {
        let bytes = self.to_vec();
        proof {
            lemma_address_len(*self);
        }
        let mut out: [u8; 20] = [0u8; 20];
        let mut i: usize = 0;
        while i < 20
            invariant
                i <= 20,
                bytes@ == self.bytes(),
                bytes@.len() == 20,
                forall|j: int| 0 <= j < i ==> out@[j] == bytes@[j],
            decreases 20 - i,
        {
            out[i] = bytes[i];
            i += 1;
        }
        assert(out@ =~= self.bytes());
        out
    }

    /// The bytes of the address, in a vector.
    pub fn to_vec(&self) -> (r: Vec<u8>)
        ensures
            r@ == self.bytes(),
    {
        let mut out: Vec<u8> = Vec::new();
        bytes::push_be(&mut out, self.hi as u128, 4);
        bytes::push_be(&mut out, self.lo, 16);
        assert(out@ =~= self.bytes());
        out
    }
}

impl U256 {
    /// The 32 bytes of the number, most significant first.
    pub open spec fn bytes(self) -> Seq<u8> {
        bytes::be(self.hi as nat, 16) + bytes::be(self.lo as nat, 16)
    }

    /// The number that these bytes spell.
    pub fn from_bytes(bytes: &[u8; 32]) -> (r: Self)
        ensures
            r.bytes() == bytes@,
    {
        let word = B256::from_bytes(bytes);
        U256 { hi: word.hi, lo: word.lo }
    }

    /// The bytes of the number, most significant first.
    pub fn to_vec(&self) -> (r: Vec<u8>)
        ensures
            r@ == self.bytes(),
    {
        let word = B256 { hi: self.hi, lo: self.lo };
        word.to_vec()
    }
}

pub proof fn lemma_hash_len(hash: B256)
    ensures
        hash.bytes().len() == 32,
{
    bytes::lemma_be_len(hash.hi as nat, 16);
    bytes::lemma_be_len(hash.lo as nat, 16);
}

pub proof fn lemma_address_len(address: Address)
    ensures
        address.bytes().len() == 20,
{
    bytes::lemma_be_len(address.hi as nat, 4);
    bytes::lemma_be_len(address.lo as nat, 16);
}

/// Hashes with the same bytes are the same hash.
pub proof fn lemma_hash_injective(a: B256, b: B256)
    requires
        a.bytes() == b.bytes(),
    ensures
        a == b,
{
    bytes::lemma_span16();
    bytes::lemma_be_len(a.hi as nat, 16);
    bytes::lemma_be_len(b.hi as nat, 16);
    bytes::lemma_be_len(a.lo as nat, 16);
    bytes::lemma_be_len(b.lo as nat, 16);
    assert(a.bytes().take(16) =~= bytes::be(a.hi as nat, 16));
    assert(b.bytes().take(16) =~= bytes::be(b.hi as nat, 16));
    assert(a.bytes().skip(16) =~= bytes::be(a.lo as nat, 16));
    assert(b.bytes().skip(16) =~= bytes::be(b.lo as nat, 16));
    bytes::lemma_be_injective(a.hi as nat, b.hi as nat, 16);
    bytes::lemma_be_injective(a.lo as nat, b.lo as nat, 16);
}

/// Addresses with the same bytes are the same address.
pub proof fn lemma_address_injective(a: Address, b: Address)
    requires
        a.bytes() == b.bytes(),
    ensures
        a == b,
{
    bytes::lemma_span16();
    bytes::lemma_be_len(a.hi as nat, 4);
    bytes::lemma_be_len(b.hi as nat, 4);
    bytes::lemma_be_len(a.lo as nat, 16);
    bytes::lemma_be_len(b.lo as nat, 16);
    assert(a.bytes().take(4) =~= bytes::be(a.hi as nat, 4));
    assert(b.bytes().take(4) =~= bytes::be(b.hi as nat, 4));
    assert(a.bytes().skip(4) =~= bytes::be(a.lo as nat, 16));
    assert(b.bytes().skip(4) =~= bytes::be(b.lo as nat, 16));
    bytes::lemma_be_injective(a.hi as nat, b.hi as nat, 4);
    bytes::lemma_be_injective(a.lo as nat, b.lo as nat, 16);
}

/// Numbers with the same bytes are the same number.
pub proof fn lemma_u256_injective(a: U256, b: U256)
    requires
        a.bytes() == b.bytes(),
    ensures
        a == b,
{
    lemma_hash_injective(B256 { hi: a.hi, lo: a.lo }, B256 { hi: b.hi, lo: b.lo });
}

} // verus!
