use vstd::prelude::*;

verus! {

/// Length in bytes of an uncompressed SEC1 P-256 public key.
pub const PASSKEY_LEN: usize = 65;

/// An authenticator's public key: an uncompressed SEC1 point on P-256.
#[derive(Clone, Copy, Debug, PartialEq, Eq)]
pub struct Passkey {
    pub bytes: [u8; 65],
}

impl View for Passkey {
    type V = Seq<u8>;

    open spec fn view(&self) -> Seq<u8> {
        self.bytes@
    }
}

impl Passkey {
    pub fn new(bytes: [u8; 65]) -> (r: Passkey)
        ensures
            r@ == bytes@,
    {
        Passkey { bytes }
    }

    /// Whether two keys hold the same bytes.
    pub fn same_as(&self, other: &Passkey) -> (r: bool)
        ensures
            r == (self@ == other@),
    {
        let mut i: usize = 0;
        while i < PASSKEY_LEN
            invariant
                0 <= i <= PASSKEY_LEN,
                self@.len() == PASSKEY_LEN,
                other@.len() == PASSKEY_LEN,
                forall|j: int| 0 <= j < i ==> self@[j] == other@[j],
            decreases PASSKEY_LEN - i,
        {
            if self.bytes[i] != other.bytes[i] {
                return false;
            }
            i = i + 1;
        }
        proof {
            assert(self@ =~= other@);
        }
        true
    }
}

/// The address of a wallet account, in its textual (strkey) form.
#[derive(Clone, Debug, PartialEq, Eq)]
pub struct WalletAddress {
    pub strkey: String,
}

impl View for WalletAddress {
    type V = Seq<char>;

    open spec fn view(&self) -> Seq<char> {
        self.strkey@
    }
}

impl WalletAddress {
    pub fn new(strkey: String) -> (r: WalletAddress)
        ensures
            r@ == strkey@,
    {
        WalletAddress { strkey }
    }

    /// A second value holding the same address.
    pub fn duplicate(&self) -> (r: WalletAddress)
        ensures
            r@ == self@,
    {
        WalletAddress { strkey: self.strkey.clone() }
    }
}

} // verus!
