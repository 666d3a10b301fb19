//! Fixed-size byte containers, borrowed slices and owned buffers in the
//! shape in which keys, signatures, hashes, scripts and results are handed
//! to callers.

use vstd::prelude::*;

verus! {

/// Whether every byte of `bytes` is zero.
pub open spec fn all_zero(bytes: Seq<u8>) -> bool {
    forall|i: int| 0 <= i < bytes.len() ==> bytes[i] == 0u8
}

/// A public key in its 33-byte compressed form.
#[derive(Clone)]
pub struct PublicKey {
    pub compressed_form: [u8; 33],
}

impl PublicKey {
    /// Whether this is the all-zero placeholder that stands for "no key".
    pub fn is_null(&self) -> (null: bool)
        ensures
            null == all_zero(self.compressed_form@),
    {
        let mut i: usize = 0;
        while i < 33
            invariant
                i <= 33,
                forall|j: int| 0 <= j < i ==> self.compressed_form@[j] == 0u8,
            decreases 33 - i,
        {
            if self.compressed_form[i] != 0 {
                return false;
            }
            i += 1;
        }
        true
    }

    /// The all-zero placeholder.
    pub fn empty() -> (key: Self)
        ensures
            all_zero(key.compressed_form@),
            key.compressed_form@ == Seq::new(33, |i: int| 0u8),
    {
        let key = PublicKey { compressed_form: [0u8; 33] };
        assert(key.compressed_form@ =~= Seq::new(33, |i: int| 0u8));
        key
    }
}

/// A secret key as 32 raw bytes.
pub struct SecretKey {
    pub bytes: [u8; 32],
}

/// A signature in its 64-byte compact form.
pub struct Signature {
    pub compact_form: [u8; 64],
}

impl Signature {
    /// Whether this is the all-zero placeholder that stands for "no signature".
    pub fn is_null(&self) -> (null: bool)
        ensures
            null == all_zero(self.compact_form@),
    {
        let mut i: usize = 0;
        while i < 64
            invariant
                i <= 64,
                forall|j: int| 0 <= j < i ==> self.compact_form@[j] == 0u8,
            decreases 64 - i,
        {
            if self.compact_form[i] != 0 {
                return false;
            }
            i += 1;
        }
        true
    }

    /// The all-zero placeholder.
    pub fn empty() -> (sig: Self)
        ensures
            all_zero(sig.compact_form@),
            sig.compact_form@ == Seq::new(64, |i: int| 0u8),
    {
        let sig = Signature { compact_form: [0u8; 64] };
        assert(sig.compact_form@ =~= Seq::new(64, |i: int| 0u8));
        sig
    }
}

/// Arbitrary 32 bytes: a hash, a channel id, a preimage.
#[derive(Copy, Clone)]
pub struct ThirtyTwoBytes {
    pub data: [u8; 32],
}

impl ThirtyTwoBytes {
    /// Thirty-two zero bytes.
    pub fn empty() -> (bytes: Self)
        ensures
            all_zero(bytes.data@),
            bytes.data@ == Seq::new(32, |i: int| 0u8),
    {
        let bytes = ThirtyTwoBytes { data: [0u8; 32] };
        assert(bytes.data@ =~= Seq::new(32, |i: int| 0u8));
        bytes
    }
}

/// Three raw bytes (an RGB colour).
pub struct ThreeBytes {
    pub data: [u8; 3],
}

/// Four raw bytes (an IPv4 address).
#[derive(Clone)]
pub struct FourBytes {
    pub data: [u8; 4],
}

/// Ten raw bytes (an old-style onion address).
#[derive(Clone)]
pub struct TenBytes {
    pub data: [u8; 10],
}

/// Sixteen raw bytes (an IPv6 address).
#[derive(Clone)]
pub struct SixteenBytes {
    pub data: [u8; 16],
}

/// An owned buffer of items, handed over as a whole.
pub struct CVecTempl<T> {
    pub data: Vec<T>,
}

impl<T> CVecTempl<T> {
    /// Takes the items out, in their order.
    pub fn into_rust(self) -> (items: Vec<T>)
        ensures
            items@ == self.data@,
    {
        self.data
    }
}

impl<T> From<Vec<T>> for CVecTempl<T> {
    fn from(v: Vec<T>) -> (buffer: Self) {
        CVecTempl { data: v }
    }
}

impl<T> vstd::std_specs::convert::FromSpecImpl<Vec<T>> for CVecTempl<T> {
    open spec fn obeys_from_spec() -> bool {
        true
    }

    open spec fn from_spec(v: Vec<T>) -> Self {
        CVecTempl { data: v }
    }
}

/// A transaction output: the script that locks it and its value in satoshis.
pub struct TxOut {
    pub script_pubkey: CVecTempl<u8>,
    pub value: u64,
}

/// A serialized transaction that is borrowed, not owned: it is good for as
/// long as the bytes it was made from.
pub struct Transaction<'a> {
    pub data: &'a [u8],
}

impl<'a> Transaction<'a> {
    /// The transaction whose serialization is `s`.
    pub fn from_slice(s: &'a [u8]) -> (tx: Self)
        ensures
            tx.data@ == s@,
    {
        Self { data: s }
    }
}

/// Borrowed bytes.
#[allow(non_camel_case_types)]
pub struct u8slice<'a> {
    pub data: &'a [u8],
}

impl<'a> u8slice<'a> {
    /// Borrows `s`.
    pub fn from_slice(s: &'a [u8]) -> (slice: Self)
        ensures
            slice.data@ == s@,
    {
        Self { data: s }
    }

    /// The bytes that are borrowed.
    pub fn to_slice(&self) -> (s: &'a [u8])
        ensures
            s@ == self.data@,
    {
        self.data
    }
}

/// Borrowed sizes.
#[allow(non_camel_case_types)]
pub struct usizeslice<'a> {
    pub data: &'a [usize],
}

impl<'a> usizeslice<'a> {
    /// Borrows `s`.
    pub fn from_slice(s: &'a [usize]) -> (slice: Self)
        ensures
            slice.data@ == s@,
    {
        Self { data: s }
    }

    /// The sizes that are borrowed.
    pub fn to_slice(&self) -> (s: &'a [usize])
        ensures
            s@ == self.data@,
    {
        self.data
    }
}

/// A string that lives as long as the program, such as a message that is
/// part of it. It is not terminated by a zero byte.
#[derive(Copy, Clone)]
pub struct Str {
    pub chars: &'static str,
}

impl Str {
    /// The string itself.
    pub fn into_str(self) -> (s: &'static str)
        ensures
            s@ == self.chars@,
    {
        self.chars
    }
}

impl From<&'static str> for Str {
    fn from(s: &'static str) -> (wrapped: Self) {
        Str { chars: s }
    }
}

impl vstd::std_specs::convert::FromSpecImpl<&'static str> for Str {
    open spec fn obeys_from_spec() -> bool {
        true
    }

    open spec fn from_spec(s: &'static str) -> Self {
        Str { chars: s }
    }
}

/// An owned run of items that are converted one by one when they are
/// handed over.
pub struct CSliceTempl<T> {
    pub data: Vec<T>,
}

/// The outcome of a call: what it gave, or why it failed.
pub struct CResultTempl<O, E> {
    pub contents: Result<O, E>,
}

impl<O, E> CResultTempl<O, E> {
    /// Whether the call went well.
    pub open spec fn result_good(&self) -> bool {
        self.contents is Ok
    }

    /// The outcome of a call that gave `o`.
    pub fn good(o: O) -> (outcome: Self)
        ensures
            outcome.contents == Ok::<O, E>(o),
            outcome.result_good(),
    {
        CResultTempl { contents: Ok(o) }
    }

    /// The outcome of a call that failed with `e`.
    pub fn err(e: E) -> (outcome: Self)
        ensures
            outcome.contents == Err::<O, E>(e),
            !outcome.result_good(),
    {
        CResultTempl { contents: Err(e) }
    }
}

/// Two values handed over together.
pub struct C2TupleTempl<A, B> {
    pub a: A,
    pub b: B,
}

impl<A, B> C2TupleTempl<A, B> {
    /// The two values as a pair.
    pub fn to_rust(self) -> (pair: (A, B))
        ensures
            pair == (self.a, self.b),
    {
        (self.a, self.b)
    }
}

impl<A, B> From<(A, B)> for C2TupleTempl<A, B> {
    fn from(tup: (A, B)) -> (both: Self) {
        C2TupleTempl { a: tup.0, b: tup.1 }
    }
}

impl<A, B> vstd::std_specs::convert::FromSpecImpl<(A, B)> for C2TupleTempl<A, B> {
    open spec fn obeys_from_spec() -> bool {
        true
    }

    open spec fn from_spec(tup: (A, B)) -> Self {
        C2TupleTempl { a: tup.0, b: tup.1 }
    }
}

/// Three values handed over together.
pub struct C3TupleTempl<A, B, C> {
    pub a: A,
    pub b: B,
    pub c: C,
}

impl<A, B, C> C3TupleTempl<A, B, C> {
    /// The three values as a triple.
    pub fn to_rust(self) -> (triple: (A, B, C))
        ensures
            triple == (self.a, self.b, self.c),
    {
        (self.a, self.b, self.c)
    }
}

impl<A, B, C> From<(A, B, C)> for C3TupleTempl<A, B, C> {
    fn from(tup: (A, B, C)) -> (all: Self) {
        C3TupleTempl { a: tup.0, b: tup.1, c: tup.2 }
    }
}

impl<A, B, C> vstd::std_specs::convert::FromSpecImpl<(A, B, C)> for C3TupleTempl<A, B, C> {
    open spec fn obeys_from_spec() -> bool {
        true
    }

    open spec fn from_spec(tup: (A, B, C)) -> Self {
        C3TupleTempl { a: tup.0, b: tup.1, c: tup.2 }
    }
}

} // verus!
