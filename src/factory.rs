use vstd::prelude::*;

use crate::error::Error;
use crate::types::{Passkey, WalletAddress};

verus! {

/// What the registry holds, as mathematics: the initialization flag and the
/// binding from each registered key to its wallet's address.
pub struct FactoryView {
    pub initialized: bool,
    pub wallets: Map<Seq<u8>, Seq<char>>,
}

impl FactoryView {
    /// A state the registry can be in: nothing is bound before initialization.
    pub open spec fn valid(self) -> bool {
        !self.initialized ==> self.wallets == Map::<Seq<u8>, Seq<char>>::empty()
    }
}

/// The state in which a freshly deployed registry starts.
pub open spec fn fresh() -> FactoryView {
    FactoryView { initialized: false, wallets: Map::empty() }
}

/// Outcome and next state of `initialize`.
pub open spec fn initialize_step(v: FactoryView) -> (Result<(), Error>, FactoryView) {
    if v.initialized {
        (Err(Error::AlreadyInited), v)
    } else {
        (Ok(()), FactoryView { initialized: true, wallets: Map::empty() })
    }
}

/// Outcome and next state of `register_wallet(k, a)`.
pub open spec fn register_step(v: FactoryView, k: Seq<u8>, a: Seq<char>) -> (
    Result<(), Error>,
    FactoryView,
) {
    if !v.initialized {
        (Err(Error::NotInited), v)
    } else if v.wallets.contains_key(k) {
        (Err(Error::PasskeyAlreadyRegistered), v)
    } else {
        (Ok(()), FactoryView { initialized: true, wallets: v.wallets.insert(k, a) })
    }
}

/// Outcome of `get_wallet_by_pk(k)`.
pub open spec fn lookup(v: FactoryView, k: Seq<u8>) -> Result<Seq<char>, Error> {
    if !v.initialized {
        Err(Error::NotInited)
    } else if v.wallets.contains_key(k) {
        Ok(v.wallets[k])
    } else {
        Err(Error::PasskeyNotRegistered)
    }
}

/// The address inside a lookup's result, as a sequence of characters.
pub open spec fn address_result(r: Result<WalletAddress, Error>) -> Result<Seq<char>, Error> {
    match r {
        Ok(a) => Ok(a@),
        Err(e) => Err(e),
    }
}

/// The bindings that a list of entries describes; a later entry wins.
pub open spec fn bindings(s: Seq<(Passkey, WalletAddress)>) -> Map<Seq<u8>, Seq<char>>
    decreases s.len(),
{
    if s.len() == 0 {
        Map::empty()
    } else {
        bindings(s.drop_last()).insert(s.last().0@, s.last().1@)
    }
}

/// No key occurs in two entries.
pub open spec fn keys_unique(s: Seq<(Passkey, WalletAddress)>) -> bool {
    forall|i: int, j: int|
        #![trigger s[i], s[j]]
        0 <= i < s.len() && 0 <= j < s.len() && i != j ==> s[i].0@ != s[j].0@
}

proof fn lemma_bindings_entry(s: Seq<(Passkey, WalletAddress)>, i: int)
    requires
        keys_unique(s),
        0 <= i < s.len(),
    ensures
        bindings(s).contains_key(s[i].0@),
        bindings(s)[s[i].0@] == s[i].1@,
    decreases s.len(),
{
    if i < s.len() - 1 {
        let t = s.drop_last();
        assert(t[i] == s[i]);
        assert(s[i].0@ != s[s.len() - 1].0@);
        lemma_bindings_entry(t, i);
    }
}

proof fn lemma_bindings_absent(s: Seq<(Passkey, WalletAddress)>, k: Seq<u8>)
    requires
        forall|i: int| 0 <= i < s.len() ==> #[trigger] s[i].0@ != k,
    ensures
        !bindings(s).contains_key(k),
    decreases s.len(),
{
    if s.len() > 0 {
        let t = s.drop_last();
        assert forall|i: int| 0 <= i < t.len() implies #[trigger] t[i].0@ != k by {
            assert(t[i] == s[i]);
        }
        lemma_bindings_absent(t, k);
    }
}

/// A lease renewal for the host to apply to the registry's own instance
/// entry and to its code: once fewer than `threshold` ledgers remain, extend
/// the lease to `extend_to` ledgers.
#[derive(Clone, Copy, Debug, PartialEq, Eq, Structural)]
pub struct LeaseExtension {
    pub threshold: u32,
    pub extend_to: u32,
}

proof fn lemma_bindings_has_entry(s: Seq<(Passkey, WalletAddress)>, k: Seq<u8>)
    requires
        bindings(s).contains_key(k),
    ensures
        exists|i: int| 0 <= i < s.len() && #[trigger] s[i].0@ == k,
{
    if forall|i: int| 0 <= i < s.len() ==> #[trigger] s[i].0@ != k {
        lemma_bindings_absent(s, k);
    }
}

/// A passkey registry: a one-time initialization gate in front of a map from
/// passkeys to wallet addresses, where a binding once made never changes.
pub struct Factory {
    initialized: bool,
    entries: Vec<(Passkey, WalletAddress)>,
}

impl View for Factory {
    type V = FactoryView;

    closed spec fn view(&self) -> FactoryView {
        FactoryView { initialized: self.initialized, wallets: bindings(self.entries@) }
    }
}

impl Factory {
    /// The representation is sound: keys are unique, and nothing is bound
    /// before initialization.
    pub closed spec fn wf(&self) -> bool {
        &&& keys_unique(self.entries@)
        &&& !self.initialized ==> self.entries@.len() == 0
    }

    /// The view of a well-formed registry is a valid state, so the laws
    /// stated over views apply to it.
    pub proof fn lemma_wf_valid(&self)
        requires
            self.wf(),
        ensures
            self@.valid(),
    {
        if !self.initialized {
            assert(bindings(self.entries@) == Map::<Seq<u8>, Seq<char>>::empty());
        }
    }

    /// A registry as deployed: not yet initialized, with no bindings.
    pub fn new() -> (r: Factory)
        ensures
            r.wf(),
            r@ == fresh(),
    {
        Factory { initialized: false, entries: Vec::new() }
    }

    /// Rebuilds a registry from stored state: the flag and the list of
    /// bindings. Returns `None` when the list cannot come from a registry:
    /// a key occurs twice, or there are bindings without initialization.
    pub fn restore(initialized: bool, entries: Vec<(Passkey, WalletAddress)>) -> (r: Option<
        Factory,
    >)
        ensures
            r is Some <==> (keys_unique(entries@) && (!initialized ==> entries@.len() == 0)),
            r matches Some(f) ==> f.wf() && f@ == (FactoryView {
                initialized,
                wallets: bindings(entries@),
            }),
    {
        let mut f = Factory::new();
        if !initialized {
            if entries.len() == 0 {
                return Some(f);
            }
            return None;
        }
        let _ = f.initialize();
        let ghost all = entries@;
        let mut i: usize = 0;
        while i < entries.len()
            invariant
                all == entries@,
                i <= all.len(),
                f.wf(),
                f@.initialized,
                keys_unique(all.take(i as int)),
                f@.wallets == bindings(all.take(i as int)),
            decreases all.len() - i,
        {
            let (pk, addr) = (entries[i].0, entries[i].1.duplicate());
            let ghost t = all.take(i as int);
            let ghost u = all.take(i + 1);
            proof {
                assert(u.drop_last() == t);
                assert forall|j: int| 0 <= j < t.len() implies #[trigger] t[j] == u[j] by {}
            }
            match f.register_wallet(pk, addr) {
                Ok(()) => {
                    proof {
                        assert forall|a: int, b: int|
                            0 <= a < u.len() && 0 <= b < u.len() && a != b implies u[a].0@
                            != u[b].0@ by {
                            if a < t.len() && b < t.len() {
                                assert(t[a] == u[a] && t[b] == u[b]);
                            } else if a < t.len() {
                                assert(t[a] == u[a]);
                                lemma_bindings_entry(t, a);
                            } else if b < t.len() {
                                assert(t[b] == u[b]);
                                lemma_bindings_entry(t, b);
                            }
                        }
                        assert(bindings(u) == bindings(t).insert(all[i as int].0@, all[i as int].1@));
                    }
                },
                Err(_) => {
                    proof {
                        lemma_bindings_has_entry(t, pk@);
                        let j = choose|j: int| 0 <= j < t.len() && #[trigger] t[j].0@ == pk@;
                        assert(all[j] == t[j]);
                        assert(all[j].0@ == all[i as int].0@);
                    }
                    return None;
                },
            }
            i = i + 1;
        }
        proof {
            assert(all.take(all.len() as int) == all);
        }
        Some(f)
    }

    /// Marks the registry initialized, with an empty map; fails with
    /// `AlreadyInited`, changing nothing, if that has happened before.
    pub fn initialize(&mut self) -> (r: Result<(), Error>)
        requires
            old(self).wf(),
        ensures
            final(self).wf(),
            (r, final(self)@) == initialize_step(old(self)@),
    {
        if self.initialized {
            return Err(Error::AlreadyInited);
        }
        self.initialized = true;
        self.entries = Vec::new();
        proof {
            assert(bindings(self.entries@) == Map::<Seq<u8>, Seq<char>>::empty());
        }
        Ok(())
    }

    /// Whether `initialize` has succeeded on this registry.
    pub fn is_initialized(&self) -> (r: bool)
        ensures
            r == self@.initialized,
    {
        self.initialized
    }

    /// Binds `pk` to `wallet_address`. Fails with `NotInited` before
    /// initialization and with `PasskeyAlreadyRegistered` if `pk` is bound;
    /// a failure changes nothing.
    pub fn register_wallet(&mut self, pk: Passkey, wallet_address: WalletAddress) -> (r: Result<
        (),
        Error,
    >)
        requires
            old(self).wf(),
        ensures
            final(self).wf(),
            (r, final(self)@) == register_step(old(self)@, pk@, wallet_address@),
    {
        if !self.initialized {
            return Err(Error::NotInited);
        }
        match self.position_of(&pk) {
            Some(_) => Err(Error::PasskeyAlreadyRegistered),
            None => {
                let ghost before = self.entries@;
                let ghost k = pk@;
                let ghost a = wallet_address@;
                self.entries.push((pk, wallet_address));
                proof {
                    let s = self.entries@;
                    assert(s.drop_last() == before);
                    assert forall|i: int, j: int|
                        0 <= i < s.len() && 0 <= j < s.len() && i != j implies s[i].0@
                        != s[j].0@ by {
                        if i < before.len() && j < before.len() {
                            assert(s[i] == before[i] && s[j] == before[j]);
                        } else if i < before.len() {
                            assert(s[i] == before[i]);
                            lemma_bindings_entry(before, i);
                        } else if j < before.len() {
                            assert(s[j] == before[j]);
                            lemma_bindings_entry(before, j);
                        }
                    }
                    assert(bindings(s) == bindings(before).insert(k, a));
                }
                Ok(())
            },
        }
    }

    /// The address bound to `pk`. Fails with `NotInited` before
    /// initialization and with `PasskeyNotRegistered` if `pk` is not bound.
    pub fn get_wallet_by_pk(&self, pk: Passkey) -> (r: Result<WalletAddress, Error>)
        requires
            self.wf(),
        ensures
            address_result(r) == lookup(self@, pk@),
    {
        if !self.initialized {
            return Err(Error::NotInited);
        }
        match self.position_of(&pk) {
            Some(i) => {
                proof {
                    lemma_bindings_entry(self.entries@, i as int);
                }
                Ok(self.entries[i].1.duplicate())
            },
            None => Err(Error::PasskeyNotRegistered),
        }
    }

    /// The renewal that keeps the registry alive for as long as the host
    /// allows, given the host's largest lease `max_ttl`. It is computed from
    /// `max_ttl` alone and touches no registry: neither the flag nor any
    /// binding can change through it.
    pub fn extend_ttl(max_ttl: u32) -> (r: LeaseExtension)
        ensures
            r == (LeaseExtension { threshold: max_ttl, extend_to: max_ttl }),
    {
        LeaseExtension { threshold: max_ttl, extend_to: max_ttl }
    }

    /// Index of the entry whose key is `pk`, if any.
    fn position_of(&self, pk: &Passkey) -> (r: Option<usize>)
        requires
            self.wf(),
        ensures
            match r {
                Some(i) => i < self.entries@.len() && self.entries@[i as int].0@ == pk@,
                None => !self@.wallets.contains_key(pk@),
            },
            r is Some <==> self@.wallets.contains_key(pk@),
    {
        let mut i: usize = 0;
        while i < self.entries.len()
            invariant
                self.wf(),
                i <= self.entries@.len(),
                forall|j: int| 0 <= j < i ==> #[trigger] self.entries@[j].0@ != pk@,
            decreases self.entries@.len() - i,
        {
            if self.entries[i].0.same_as(pk) {
                proof {
                    lemma_bindings_entry(self.entries@, i as int);
                }
                return Some(i);
            }
            i = i + 1;
        }
        proof {
            lemma_bindings_absent(self.entries@, pk@);
        }
        None
    }
}

/// Initialization succeeds exactly once: on a registry that was never
/// initialized the first `initialize` returns `Ok`; a second returns
/// `AlreadyInited` and leaves the state as the first one left it.
pub proof fn lemma_initialize_once(v: FactoryView)
    requires
        v.valid(),
        !v.initialized,
    ensures
        initialize_step(v).0 == Ok::<(), Error>(()),
        initialize_step(initialize_step(v).1).0 == Err::<(), Error>(Error::AlreadyInited),
        initialize_step(initialize_step(v).1).1 == initialize_step(v).1,
{
}

/// Once the registry is initialized, a registration of `k` to `a` that
/// succeeds makes a lookup of `k` return exactly `a`.
pub proof fn lemma_register_then_lookup(v: FactoryView, k: Seq<u8>, a: Seq<char>)
    requires
        v.valid(),
    ensures
        ({
            let s = initialize_step(v).1;
            register_step(s, k, a).0 is Ok ==> lookup(register_step(s, k, a).1, k) == Ok::<
                Seq<char>,
                Error,
            >(a)
        }),
{
}

/// A binding cannot be replaced: after `k` was registered to `a1`, registering
/// `k` again, to any address, fails with `PasskeyAlreadyRegistered`, changes
/// nothing, and a lookup of `k` still returns `a1`.
pub proof fn lemma_binding_is_final(v: FactoryView, k: Seq<u8>, a1: Seq<char>, a2: Seq<char>)
    requires
        v.valid(),
        register_step(v, k, a1).0 is Ok,
    ensures
        ({
            let s1 = register_step(v, k, a1).1;
            &&& register_step(s1, k, a2).0 == Err::<(), Error>(Error::PasskeyAlreadyRegistered)
            &&& register_step(s1, k, a2).1 == s1
            &&& lookup(register_step(s1, k, a2).1, k) == Ok::<Seq<char>, Error>(a1)
        }),
{
}

} // verus!
