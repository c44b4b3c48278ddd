use std::collections::HashMap;
use vstd::prelude::*;

use crate::balances::NativeBalance;
use crate::hashing::{blake2_256, blake2_256_of};
use crate::types::{ensure_signed, AccountId, Balance, Dna, Error, Event, Gato, Origin, MAX_OWNED};

verus! {

broadcast use {vstd::std_specs::hash::group_hash_axioms, vstd::array::group_array_axioms};

/// Whether some gato of `s` has identifier `dna`.
pub open spec fn has_dna(s: Seq<Gato>, dna: Dna) -> bool {
    exists|i: int| 0 <= i < s.len() && s[i].dna == dna
}

/// No two gatos of `s` share an identifier.
pub open spec fn distinct_dnas(s: Seq<Gato>) -> bool {
    forall|i: int, j: int|
        0 <= i < s.len() && 0 <= j < s.len() && i != j ==> s[i].dna != s[j].dna
}

/// The asset store that a sequence of gatos stands for: each identifier
/// mapped to its gato.
pub open spec fn store_of(s: Seq<Gato>) -> Map<Dna, Gato> {
    Map::new(
        |k: Dna| has_dna(s, k),
        |k: Dna| s[choose|i: int| 0 <= i < s.len() && s[i].dna == k],
    )
}

proof fn lemma_store_index(s: Seq<Gato>, i: int)
    requires
        distinct_dnas(s),
        0 <= i < s.len(),
    ensures
        store_of(s).contains_key(s[i].dna),
        store_of(s)[s[i].dna] == s[i],
{
    let k = s[i].dna;
    assert(has_dna(s, k));
    let j = choose|j: int| 0 <= j < s.len() && s[j].dna == k;
    assert(j == i);
}

proof fn lemma_store_push(s: Seq<Gato>, g: Gato)
    requires
        distinct_dnas(s),
        !store_of(s).contains_key(g.dna),
    ensures
        distinct_dnas(s.push(g)),
        store_of(s.push(g)) == store_of(s).insert(g.dna, g),
{
    let t = s.push(g);
    assert forall|i: int, j: int| 0 <= i < t.len() && 0 <= j < t.len() && i != j implies t[i].dna
        != t[j].dna by {
        if i == s.len() {
            assert(!has_dna(s, g.dna));
            assert(t[j] == s[j]);
        } else if j == s.len() {
            assert(!has_dna(s, g.dna));
            assert(t[i] == s[i]);
        }
    }
    assert forall|k: Dna| #[trigger] store_of(t).contains_key(k) == store_of(s).insert(
        g.dna,
        g,
    ).contains_key(k) by {
        if has_dna(t, k) && k != g.dna {
            let i = choose|i: int| 0 <= i < t.len() && t[i].dna == k;
            assert(s[i].dna == k);
        }
        if has_dna(s, k) {
            let i = choose|i: int| 0 <= i < s.len() && s[i].dna == k;
            assert(t[i].dna == k);
        }
        if k == g.dna {
            assert(t[s.len() as int].dna == k);
        }
    }
    assert forall|k: Dna| #[trigger] store_of(t).contains_key(k) implies store_of(t)[k]
        == store_of(s).insert(g.dna, g)[k] by {
        let i = choose|i: int| 0 <= i < t.len() && t[i].dna == k;
        lemma_store_index(t, i);
        if i < s.len() {
            lemma_store_index(s, i);
        }
    }
    assert(store_of(t) =~= store_of(s).insert(g.dna, g));
}

proof fn lemma_store_update(s: Seq<Gato>, i: int, g: Gato)
    requires
        distinct_dnas(s),
        0 <= i < s.len(),
        s[i].dna == g.dna,
    ensures
        distinct_dnas(s.update(i, g)),
        store_of(s.update(i, g)) == store_of(s).insert(g.dna, g),
{
    let t = s.update(i, g);
    assert forall|k: Dna| #[trigger] store_of(t).contains_key(k) == store_of(s).insert(
        g.dna,
        g,
    ).contains_key(k) by {
        if has_dna(t, k) {
            let j = choose|j: int| 0 <= j < t.len() && t[j].dna == k;
            assert(s[j].dna == k);
        }
        if has_dna(s, k) {
            let j = choose|j: int| 0 <= j < s.len() && s[j].dna == k;
            assert(t[j].dna == k);
        }
        if k == g.dna {
            assert(t[i].dna == k);
        }
    }
    assert forall|k: Dna| #[trigger] store_of(t).contains_key(k) implies store_of(t)[k]
        == store_of(s).insert(g.dna, g)[k] by {
        let j = choose|j: int| 0 <= j < t.len() && t[j].dna == k;
        lemma_store_index(t, j);
        lemma_store_index(s, j);
    }
    assert(store_of(t) =~= store_of(s).insert(g.dna, g));
}

/// Byte-wise equality of two identifiers.
fn same_dna(a: &Dna, b: &Dna) -> (r: bool)
    ensures
        r == (*a == *b),
{
    let mut i: usize = 0;
    while i < 32
        invariant
            0 <= i <= 32,
            forall|j: int| 0 <= j < i ==> a[j] == b[j],
        decreases 32 - i,
    {
        if a[i] != b[i] {
            return false;
        }
        i = i + 1;
    }
    assert(*a =~= *b);
    true
}

/// The gatos, who holds which, the supply counter and the events recorded.
pub struct Pallet {
    gatos: Vec<Gato>,
    owned: HashMap<AccountId, Vec<Dna>>,
    count: u32,
    events: Vec<Event>,
}

impl Pallet {
    /// The asset store: identifier to gato.
    pub closed spec fn assets(&self) -> Map<Dna, Gato> {
        store_of(self.gatos@)
    }

    /// The identifiers that `who` holds; empty for an account that holds none.
    pub closed spec fn owned_by(&self, who: AccountId) -> Seq<Dna> {
        if self.owned@.contains_key(who) {
            self.owned@[who]@
        } else {
            Seq::empty()
        }
    }

    /// The supply counter.
    pub closed spec fn supply(&self) -> u32 {
        self.count
    }

    /// The events recorded so far, oldest first.
    pub closed spec fn event_log(&self) -> Seq<Event> {
        self.events@
    }

    /// The ledger's invariants: identifiers unique, the counter equal to the
    /// store's size, every index entry naming a gato of that owner, every gato
    /// in its owner's index exactly once, and no index over capacity.
    pub closed spec fn wf(&self) -> bool {
        &&& distinct_dnas(self.gatos@)
        &&& self.count == self.gatos@.len()
        &&& forall|w: AccountId, x: Dna| #[trigger]
            self.owned_by(w).contains(x) ==> self.assets().contains_key(x)
                && self.assets()[x].owner == w
        &&& forall|x: Dna| #[trigger]
            self.assets().contains_key(x) ==> self.owned_by(self.assets()[x].owner).contains(x)
        &&& forall|w: AccountId| #[trigger] self.owned_by(w).no_duplicates()
        &&& forall|w: AccountId| #[trigger] self.owned_by(w).len() <= MAX_OWNED
    }
}


/// The supply counter after one more mint, or `TooManyGatos` where it would
/// overflow.
pub fn next_count(current: u32) -> (r: Result<u32, Error>)
    ensures
        current < u32::MAX ==> r == Ok::<u32, Error>((current + 1) as u32),
        current == u32::MAX ==> r == Err::<u32, Error>(Error::TooManyGatos),
{
    match current.checked_add(1) {
        Some(n) => Ok(n),
        None => Err(Error::TooManyGatos),
    }
}

impl Pallet {
    /// What `mint` answers, conditions taken in order.
    pub open spec fn mint_outcome(&self, owner: AccountId, dna: Dna) -> Result<(), Error> {
        if self.assets().contains_key(dna) {
            Err(Error::DuplicateGato)
        } else if self.supply() == u32::MAX {
            Err(Error::TooManyGatos)
        } else if self.owned_by(owner).len() >= MAX_OWNED {
            Err(Error::TooManyOwned)
        } else {
            Ok(())
        }
    }

    /// An empty ledger.
    pub fn new() -> (r: Self)
        ensures
            r.wf(),
            r.assets() == Map::<Dna, Gato>::empty(),
            forall|w: AccountId| #[trigger] r.owned_by(w) == Seq::<Dna>::empty(),
            r.supply() == 0,
            r.event_log() == Seq::<Event>::empty(),
    {
        let r = Pallet { gatos: Vec::new(), owned: HashMap::new(), count: 0, events: Vec::new() };
        assert(r.assets() =~= Map::<Dna, Gato>::empty());
        r
    }

    /// The position in the store of the gato with identifier `dna`.
    fn find(&self, dna: &Dna) -> (r: Option<usize>)
        ensures
            match r {
                Some(i) => i < self.gatos@.len() && self.gatos@[i as int].dna == *dna,
                None => !self.assets().contains_key(*dna),
            },
    {
        let mut i: usize = 0;
        while i < self.gatos.len()
            invariant
                0 <= i <= self.gatos@.len(),
                forall|j: int| 0 <= j < i ==> self.gatos@[j].dna != *dna,
            decreases self.gatos@.len() - i,
        {
            if same_dna(&self.gatos[i].dna, dna) {
                return Some(i);
            }
            i = i + 1;
        }
        None
    }

    /// How many gatos `who` holds.
    fn owned_len(&self, who: AccountId) -> (r: usize)
        ensures
            r == self.owned_by(who).len(),
    {
        match self.owned.get(&who) {
            Some(v) => v.len(),
            None => 0,
        }
    }

    /// Appends `id` to the index entry of `who`.
    fn index_push(&mut self, who: AccountId, id: Dna)
        ensures
            final(self).owned_by(who) == old(self).owned_by(who).push(id),
            forall|w: AccountId| w != who ==> final(self).owned_by(w) == old(self).owned_by(w),
            final(self).gatos == old(self).gatos,
            final(self).count == old(self).count,
            final(self).events == old(self).events,
    {
        let mut v = match self.owned.remove(&who) {
            Some(v) => v,
            None => Vec::new(),
        };
        v.push(id);
        self.owned.insert(who, v);
    }

    /// Takes `id` out of the index entry of `who` by swap-removal.
    fn index_remove(&mut self, who: AccountId, id: Dna)
        requires
            old(self).owned_by(who).contains(id),
        ensures
            exists|k: int|
                0 <= k < old(self).owned_by(who).len() && old(self).owned_by(who)[k] == id
                    && final(self).owned_by(who) == old(self).owned_by(who).update(
                    k,
                    old(self).owned_by(who).last(),
                ).drop_last(),
            forall|w: AccountId| w != who ==> final(self).owned_by(w) == old(self).owned_by(w),
            final(self).gatos == old(self).gatos,
            final(self).count == old(self).count,
            final(self).events == old(self).events,
    {
        let ghost entry = self.owned_by(who);
        let mut v = match self.owned.remove(&who) {
            Some(v) => v,
            None => Vec::new(),
        };
        assert(v@ == entry);
        let mut i: usize = 0;
        while i < v.len()
            invariant
                0 <= i <= v@.len(),
                v@ == entry,
                entry.contains(id),
                forall|j: int| 0 <= j < i ==> v@[j] != id,
            ensures
                i <= v@.len(),
                v@ == entry,
                i < v@.len() ==> v@[i as int] == id,
                forall|j: int| 0 <= j < i ==> v@[j] != id,
            decreases v@.len() - i,
        {
            if same_dna(&v[i], &id) {
                break;
            }
            i = i + 1;
        }
        proof {
            if i == v@.len() {
                let j = choose|j: int| 0 <= j < entry.len() && entry[j] == id;
                assert(v@[j] != id);
            }
        }
        let ghost k = i as int;
        v.swap_remove(i);
        self.owned.insert(who, v);
        assert(self.owned_by(who) == entry.update(k, entry.last()).drop_last());
    }
}


/// `post` is `pre` with the gato `dna` created for `owner`, unlisted, and the
/// counter one higher.
pub open spec fn minted(pre: Pallet, post: Pallet, owner: AccountId, dna: Dna) -> bool {
    &&& post.assets() == pre.assets().insert(dna, Gato { dna, owner, price: None })
    &&& post.owned_by(owner) == pre.owned_by(owner).push(dna)
    &&& forall|w: AccountId| w != owner ==> #[trigger] post.owned_by(w) == pre.owned_by(w)
    &&& post.supply() == pre.supply() + 1
    &&& post.event_log() == pre.event_log().push(Event::Created { owner })
}

/// The four bytes of `n`, least significant first.
pub open spec fn le_bytes(n: u32) -> Seq<u8> {
    seq![
        (n % 256) as u8,
        ((n / 256) % 256) as u8,
        ((n / 65536) % 256) as u8,
        ((n / 16777216) % 256) as u8,
    ]
}

/// The identifier drawn from `entropy` while the counter reads `count`: the
/// digest of the entropy followed by the counter's bytes.
pub open spec fn dna_for(entropy: Seq<u8>, count: u32) -> Dna {
    blake2_256_of(entropy + le_bytes(count))
}

impl Pallet {
    /// Creates the gato `dna` for `owner`, unlisted. Refused, with nothing
    /// written, where the identifier is taken, the counter would overflow or
    /// the owner's index is full.
    pub fn mint(&mut self, owner: AccountId, dna: Dna) -> (r: Result<(), Error>)
        requires
            old(self).wf(),
        ensures
            final(self).wf(),
            r == old(self).mint_outcome(owner, dna),
            r is Ok ==> !old(self).assets().contains_key(dna),
            r is Err ==> *final(self) == *old(self),
            r is Ok ==> minted(*old(self), *final(self), owner, dna),
    {
        if self.find(&dna).is_some() {
            return Err(Error::DuplicateGato);
        }
        let new_count = match next_count(self.count) {
            Ok(n) => n,
            Err(e) => return Err(e),
        };
        if self.owned_len(owner) >= MAX_OWNED {
            return Err(Error::TooManyOwned);
        }
        let ghost pre = *self;
        let gato = Gato { dna, owner, price: None };
        self.index_push(owner, dna);
        self.gatos.push(gato);
        self.count = new_count;
        self.events.push(Event::Created { owner });
        proof {
            lemma_store_push(pre.gatos@, gato);
            assert(!pre.owned_by(owner).contains(dna));
            assert forall|w: AccountId, x: Dna| #[trigger]
                self.owned_by(w).contains(x) implies self.assets().contains_key(x)
                && self.assets()[x].owner == w by {
                if w == owner && x == dna {
                } else {
                    if w == owner {
                        let j = choose|j: int| 0 <= j < self.owned_by(w).len() && self.owned_by(w)[j] == x;
                        assert(pre.owned_by(w)[j] == x);
                    }
                    assert(pre.owned_by(w).contains(x));
                }
            }
            assert forall|x: Dna| #[trigger]
                self.assets().contains_key(x) implies self.owned_by(self.assets()[x].owner).contains(x) by {
                if x == dna {
                    assert(self.owned_by(owner)[pre.owned_by(owner).len() as int] == dna);
                } else {
                    let w = pre.assets()[x].owner;
                    assert(pre.owned_by(w).contains(x));
                    if w == owner {
                        let j = choose|j: int| 0 <= j < pre.owned_by(w).len() && pre.owned_by(w)[j] == x;
                        assert(self.owned_by(w)[j] == x);
                    }
                }
            }
            assert forall|w: AccountId| #[trigger] self.owned_by(w).no_duplicates() by {
                if w == owner {
                    let a = pre.owned_by(w);
                    let b = self.owned_by(w);
                    assert(a.no_duplicates());
                    assert forall|i: int, j: int|
                        0 <= i < b.len() && 0 <= j < b.len() && i != j implies b[i] != b[j] by {
                        if i == a.len() {
                            assert(b[j] == a[j]);
                        } else if j == a.len() {
                            assert(b[i] == a[i]);
                        }
                    }
                } else {
                    assert(pre.owned_by(w).no_duplicates());
                }
            }
            assert forall|w: AccountId| #[trigger] self.owned_by(w).len() <= MAX_OWNED by {
                assert(pre.owned_by(w).len() <= MAX_OWNED);
            }
        }
        Ok(())
    }
}


/// Swap-removal from a sequence without repeats takes out exactly the removed
/// element.
proof fn lemma_swap_remove(s: Seq<Dna>, k: int)
    requires
        s.no_duplicates(),
        0 <= k < s.len(),
    ensures
        s.update(k, s.last()).drop_last().no_duplicates(),
        s.update(k, s.last()).drop_last().len() == s.len() - 1,
        forall|x: Dna| #[trigger]
            s.update(k, s.last()).drop_last().contains(x) <==> (s.contains(x) && x != s[k]),
{
    let t = s.update(k, s.last()).drop_last();
    let n = s.len() - 1;
    assert forall|i: int| 0 <= i < t.len() implies #[trigger] t[i] == (if i == k {
        s[n]
    } else {
        s[i]
    }) by {}
    assert forall|i: int, j: int| 0 <= i < t.len() && 0 <= j < t.len() && i != j implies t[i]
        != t[j] by {
        if i == k {
            assert(t[j] == s[j]);
        } else if j == k {
            assert(t[i] == s[i]);
        } else {
            assert(t[i] == s[i] && t[j] == s[j]);
        }
    }
    assert forall|x: Dna| #[trigger] t.contains(x) <==> (s.contains(x) && x != s[k]) by {
        if t.contains(x) {
            let i = choose|i: int| 0 <= i < t.len() && t[i] == x;
            if i == k {
                assert(s[n] == x && n != k);
            } else {
                assert(s[i] == x);
            }
        }
        if s.contains(x) && x != s[k] {
            let i = choose|i: int| 0 <= i < s.len() && s[i] == x;
            if i == n {
                assert(t[k] == x);
            } else {
                assert(t[i] == x);
            }
        }
    }
}

/// Two ledgers that differ at most in their event logs hold the same state.
proof fn lemma_same_ledger(a: Pallet, b: Pallet)
    requires
        a.gatos == b.gatos,
        a.owned == b.owned,
        a.count == b.count,
    ensures
        a.wf() ==> b.wf(),
        a.assets() == b.assets(),
        a.supply() == b.supply(),
        forall|w: AccountId| #[trigger] a.owned_by(w) == b.owned_by(w),
{
    assert forall|w: AccountId| #[trigger] a.owned_by(w) == b.owned_by(w) by {}
    if a.wf() {
        assert forall|w: AccountId, x: Dna| #[trigger]
            b.owned_by(w).contains(x) implies b.assets().contains_key(x) && b.assets()[x].owner
            == w by {
            assert(a.owned_by(w).contains(x));
        }
        assert forall|x: Dna| #[trigger]
            b.assets().contains_key(x) implies b.owned_by(b.assets()[x].owner).contains(x) by {
            assert(a.assets().contains_key(x));
        }
        assert forall|w: AccountId| #[trigger] b.owned_by(w).no_duplicates() by {
            assert(a.owned_by(w).no_duplicates());
        }
        assert forall|w: AccountId| #[trigger] b.owned_by(w).len() <= MAX_OWNED by {
            assert(a.owned_by(w).len() <= MAX_OWNED);
        }
    }
}

/// A hand-over stays one when only the event log changes afterwards.
proof fn lemma_handed_over_same(
    pre: Pallet,
    a: Pallet,
    b: Pallet,
    id: Dna,
    to: AccountId,
    price: Option<Balance>,
)
    requires
        handed_over(pre, a, id, to, price),
        a.gatos == b.gatos,
        a.owned == b.owned,
        a.count == b.count,
    ensures
        handed_over(pre, b, id, to, price),
{
    lemma_same_ledger(a, b);
    let from = pre.assets()[id].owner;
    let k = choose|k: int|
        0 <= k < pre.owned_by(from).len() && pre.owned_by(from)[k] == id && a.owned_by(from)
            == pre.owned_by(from).update(k, pre.owned_by(from).last()).drop_last();
    assert(b.owned_by(from) == a.owned_by(from));
    assert(b.owned_by(to) == a.owned_by(to));
    assert(0 <= k < pre.owned_by(from).len() && pre.owned_by(from)[k] == id && b.owned_by(from)
        == pre.owned_by(from).update(k, pre.owned_by(from).last()).drop_last());
    assert forall|w: AccountId| w != from && w != to implies #[trigger] b.owned_by(w)
        == pre.owned_by(w) by {
        assert(a.owned_by(w) == b.owned_by(w));
    }
}

/// `post` is `pre` with the gato `id` handed to `to` at price `price`: its
/// identifier joins the index of `to` and leaves that of its former owner by
/// swap-removal; no other index and not the counter change.
pub open spec fn handed_over(pre: Pallet, post: Pallet, id: Dna, to: AccountId, price: Option<Balance>) -> bool {
    let from = pre.assets()[id].owner;
    &&& post.assets() == pre.assets().insert(id, Gato { dna: id, owner: to, price })
    &&& post.owned_by(to) == pre.owned_by(to).push(id)
    &&& exists|k: int|
        0 <= k < pre.owned_by(from).len() && pre.owned_by(from)[k] == id
            && post.owned_by(from) == pre.owned_by(from).update(k, pre.owned_by(from).last()).drop_last()
    &&& forall|w: AccountId| w != from && w != to ==> #[trigger] post.owned_by(w) == pre.owned_by(w)
    &&& post.supply() == pre.supply()
}

impl Pallet {
    /// Hands the gato at position `i` to `to` with price `price`, moving its
    /// identifier from the old owner's index to the new one's.
    fn reassign(&mut self, i: usize, to: AccountId, price: Option<Balance>)
        requires
            old(self).wf(),
            i < old(self).gatos@.len(),
            old(self).gatos@[i as int].owner != to,
            old(self).owned_by(to).len() < MAX_OWNED,
        ensures
            final(self).wf(),
            handed_over(*old(self), *final(self), old(self).gatos@[i as int].dna, to, price),
            final(self).count == old(self).count,
            final(self).events == old(self).events,
    {
        let ghost pre = *self;
        let old_gato = self.gatos[i];
        let dna = old_gato.dna;
        let from = old_gato.owner;
        proof {
            lemma_store_index(pre.gatos@, i as int);
        }
        assert(pre.assets()[dna].owner == from);
        self.index_push(to, dna);
        self.index_remove(from, dna);
        let gato = Gato { dna, owner: to, price };
        self.gatos.set(i, gato);
        proof {
            lemma_store_update(pre.gatos@, i as int, gato);
            let k = choose|k: int|
                0 <= k < pre.owned_by(from).len() && pre.owned_by(from)[k] == dna
                    && self.owned_by(from) == pre.owned_by(from).update(
                    k,
                    pre.owned_by(from).last(),
                ).drop_last();
            assert(pre.owned_by(from).no_duplicates());
            lemma_swap_remove(pre.owned_by(from), k);
            assert(!pre.owned_by(to).contains(dna));
            assert forall|w: AccountId, x: Dna| #[trigger]
                self.owned_by(w).contains(x) implies self.assets().contains_key(x)
                && self.assets()[x].owner == w by {
                if w == to {
                    if x != dna {
                        let j = choose|j: int| 0 <= j < self.owned_by(w).len() && self.owned_by(w)[j] == x;
                        assert(pre.owned_by(w)[j] == x);
                        assert(pre.owned_by(w).contains(x));
                    }
                } else {
                    assert(pre.owned_by(w).contains(x));
                }
            }
            assert forall|x: Dna| #[trigger]
                self.assets().contains_key(x) implies self.owned_by(self.assets()[x].owner).contains(x) by {
                if x == dna {
                    assert(self.owned_by(to)[pre.owned_by(to).len() as int] == dna);
                } else {
                    let w = pre.assets()[x].owner;
                    assert(pre.owned_by(w).contains(x));
                    if w == to {
                        let j = choose|j: int| 0 <= j < pre.owned_by(w).len() && pre.owned_by(w)[j] == x;
                        assert(self.owned_by(w)[j] == x);
                    }
                }
            }
            assert forall|w: AccountId| #[trigger] self.owned_by(w).no_duplicates() by {
                if w == to {
                    let a = pre.owned_by(w);
                    let b = self.owned_by(w);
                    assert(a.no_duplicates());
                    assert forall|i: int, j: int|
                        0 <= i < b.len() && 0 <= j < b.len() && i != j implies b[i] != b[j] by {
                        if i == a.len() {
                            assert(b[j] == a[j]);
                        } else if j == a.len() {
                            assert(b[i] == a[i]);
                        }
                    }
                } else {
                    assert(pre.owned_by(w).no_duplicates());
                }
            }
            assert forall|w: AccountId| #[trigger] self.owned_by(w).len() <= MAX_OWNED by {
                assert(pre.owned_by(w).len() <= MAX_OWNED);
            }
        }
    }
}


impl Pallet {
    /// What `do_transfer` answers, conditions taken in order.
    pub open spec fn transfer_outcome(&self, from: AccountId, to: AccountId, id: Dna) -> Result<
        (),
        Error,
    > {
        if from == to {
            Err(Error::TransferToSelf)
        } else if !self.assets().contains_key(id) {
            Err(Error::NoGato)
        } else if self.assets()[id].owner != from {
            Err(Error::NotOwner)
        } else if self.owned_by(to).len() >= MAX_OWNED {
            Err(Error::TooManyOwned)
        } else {
            Ok(())
        }
    }

    /// What `do_set_price` answers, conditions taken in order.
    pub open spec fn set_price_outcome(&self, who: AccountId, id: Dna) -> Result<(), Error> {
        if !self.assets().contains_key(id) {
            Err(Error::NoGato)
        } else if self.assets()[id].owner != who {
            Err(Error::NotOwner)
        } else {
            Ok(())
        }
    }

    /// What `do_buy_gato` answers, conditions taken in order: the gato, its
    /// listing, the buyer's ceiling, the payment, then the hand-over.
    pub open spec fn buy_outcome<C: NativeBalance>(
        &self,
        balances: C,
        buyer: AccountId,
        id: Dna,
        max_price: Balance,
    ) -> Result<(), Error> {
        if !self.assets().contains_key(id) {
            Err(Error::NoGato)
        } else {
            let g = self.assets()[id];
            match g.price {
                None => Err(Error::GatoNotForSale),
                Some(price) => if max_price < price {
                    Err(Error::MaxPriceTooLow)
                } else {
                    match balances.debit_credit_outcome(buyer, g.owner, price) {
                        Err(e) => Err(Error::Balance(e)),
                        Ok(_) => self.transfer_outcome(g.owner, buyer, id),
                    }
                },
            }
        }
    }

    /// Moves the gato `id` from `from` to `to`. Its price stays as it was.
    pub fn do_transfer(&mut self, from: AccountId, to: AccountId, id: Dna) -> (r: Result<
        (),
        Error,
    >)
        requires
            old(self).wf(),
        ensures
            final(self).wf(),
            r == old(self).transfer_outcome(from, to, id),
            r is Err ==> *final(self) == *old(self),
            r is Ok ==> {
                &&& handed_over(*old(self), *final(self), id, to, old(self).assets()[id].price)
                &&& final(self).event_log() == old(self).event_log().push(
                    Event::Transferred { from, to, gato_id: id },
                )
            },
    {
        if from == to {
            return Err(Error::TransferToSelf);
        }
        let i = match self.find(&id) {
            Some(i) => i,
            None => return Err(Error::NoGato),
        };
        let gato = self.gatos[i];
        proof {
            lemma_store_index(self.gatos@, i as int);
        }
        if gato.owner != from {
            return Err(Error::NotOwner);
        }
        if self.owned_len(to) >= MAX_OWNED {
            return Err(Error::TooManyOwned);
        }
        let ghost pre = *self;
        self.reassign(i, to, gato.price);
        let ghost mid = *self;
        self.events.push(Event::Transferred { from, to, gato_id: id });
        proof {
            lemma_same_ledger(mid, *self);
            lemma_handed_over_same(pre, mid, *self, id, to, gato.price);
        }
        Ok(())
    }

    /// Lists the gato `id` at `new_price`, or takes it off sale with `None`.
    pub fn do_set_price(&mut self, who: AccountId, id: Dna, new_price: Option<Balance>) -> (r:
        Result<(), Error>)
        requires
            old(self).wf(),
        ensures
            final(self).wf(),
            r == old(self).set_price_outcome(who, id),
            r is Err ==> *final(self) == *old(self),
            r is Ok ==> {
                &&& final(self).assets() == old(self).assets().insert(
                    id,
                    Gato { dna: id, owner: who, price: new_price },
                )
                &&& forall|w: AccountId| #[trigger] final(self).owned_by(w) == old(self).owned_by(w)
                &&& final(self).supply() == old(self).supply()
                &&& final(self).event_log() == old(self).event_log().push(
                    Event::PriceSet { owner: who, gato_id: id, new_price },
                )
            },
    {
        let i = match self.find(&id) {
            Some(i) => i,
            None => return Err(Error::NoGato),
        };
        let gato = self.gatos[i];
        let ghost pre = *self;
        proof {
            lemma_store_index(self.gatos@, i as int);
        }
        if gato.owner != who {
            return Err(Error::NotOwner);
        }
        let listed = Gato { dna: id, owner: who, price: new_price };
        self.gatos.set(i, listed);
        self.events.push(Event::PriceSet { owner: who, gato_id: id, new_price });
        proof {
            lemma_store_update(pre.gatos@, i as int, listed);
            assert forall|w: AccountId, x: Dna| #[trigger]
                self.owned_by(w).contains(x) implies self.assets().contains_key(x)
                && self.assets()[x].owner == w by {
                assert(pre.owned_by(w).contains(x));
            }
            assert forall|x: Dna| #[trigger]
                self.assets().contains_key(x) implies self.owned_by(self.assets()[x].owner).contains(x) by {
                assert(pre.assets().contains_key(x));
            }
            assert forall|w: AccountId| #[trigger] self.owned_by(w).no_duplicates() by {
                assert(pre.owned_by(w).no_duplicates());
            }
            assert forall|w: AccountId| #[trigger] self.owned_by(w).len() <= MAX_OWNED by {
                assert(pre.owned_by(w).len() <= MAX_OWNED);
            }
        }
        Ok(())
    }

    /// `buyer` buys the gato `id`, paying exactly its listed price to its
    /// owner from `balances`, provided that price is at most `max_price`. The
    /// gato leaves the sale list.
    pub fn do_buy_gato<C: NativeBalance>(
        &mut self,
        balances: &mut C,
        buyer: AccountId,
        id: Dna,
        max_price: Balance,
    ) -> (r: Result<(), Error>)
        requires
            old(self).wf(),
        ensures
            final(self).wf(),
            r == old(self).buy_outcome(*old(balances), buyer, id, max_price),
            r is Err ==> *final(self) == *old(self) && *final(balances) == *old(balances),
            r is Ok ==> ({
                let seller = old(self).assets()[id].owner;
                let price = old(self).assets()[id].price.unwrap();
                &&& handed_over(*old(self), *final(self), id, buyer, None)
                &&& final(self).assets()[id].price == None::<Balance>
                &&& final(balances).balance_of(buyer) == old(balances).balance_of(buyer) - price
                &&& final(balances).balance_of(seller) == old(balances).balance_of(seller) + price
                &&& forall|w: AccountId|
                    w != buyer && w != seller ==> #[trigger] final(balances).balance_of(w) == old(
                        balances,
                    ).balance_of(w)
                &&& final(self).event_log() == old(self).event_log().push(
                    Event::Sold { buyer, gato_id: id, price },
                )
            }),
    {
        let i = match self.find(&id) {
            Some(i) => i,
            None => return Err(Error::NoGato),
        };
        let gato = self.gatos[i];
        proof {
            lemma_store_index(self.gatos@, i as int);
        }
        let price = match gato.price {
            Some(p) => p,
            None => return Err(Error::GatoNotForSale),
        };
        if max_price < price {
            return Err(Error::MaxPriceTooLow);
        }
        if let Err(e) = balances.can_debit_credit(buyer, gato.owner, price) {
            return Err(Error::Balance(e));
        }
        if gato.owner == buyer {
            return Err(Error::TransferToSelf);
        }
        if self.owned_len(buyer) >= MAX_OWNED {
            return Err(Error::TooManyOwned);
        }
        match balances.debit_credit(buyer, gato.owner, price) {
            Ok(()) => {},
            Err(e) => return Err(Error::Balance(e)),
        }
        let ghost pre = *self;
        self.reassign(i, buyer, None);
        let ghost mid = *self;
        self.events.push(Event::Sold { buyer, gato_id: id, price });
        proof {
            lemma_same_ledger(mid, *self);
            lemma_handed_over_same(pre, mid, *self, id, buyer, None);
        }
        Ok(())
    }
}


impl Pallet {
    /// A fresh identifier: the digest of the caller-supplied entropy followed
    /// by the supply counter's bytes, so that two mints never draw from the
    /// same input.
    pub fn gen_dna(&self, entropy: &[u8]) -> (r: Dna)
        ensures
            r == dna_for(entropy@, self.supply()),
    {
        let mut payload: Vec<u8> = Vec::new();
        let mut i: usize = 0;
        while i < entropy.len()
            invariant
                0 <= i <= entropy@.len(),
                payload@ == entropy@.subrange(0, i as int),
            decreases entropy@.len() - i,
        {
            payload.push(entropy[i]);
            i = i + 1;
        }
        let n = self.count;
        payload.push((n % 256) as u8);
        payload.push(((n / 256) % 256) as u8);
        payload.push(((n / 65536) % 256) as u8);
        payload.push(((n / 16777216) % 256) as u8);
        assert(payload@ =~= entropy@ + le_bytes(n));
        blake2_256(payload.as_slice())
    }

    /// The signed caller creates a gato whose identifier is drawn from
    /// `entropy` and the counter.
    pub fn create_gatos(&mut self, origin: Origin, entropy: &[u8]) -> (r: Result<(), Error>)
        requires
            old(self).wf(),
        ensures
            final(self).wf(),
            r is Err ==> *final(self) == *old(self),
            match origin {
                Origin::Signed(who) => {
                    let dna = dna_for(entropy@, old(self).supply());
                    &&& r == old(self).mint_outcome(who, dna)
                    &&& r is Ok ==> !old(self).assets().contains_key(dna)
                    &&& r is Ok ==> minted(*old(self), *final(self), who, dna)
                },
                _ => r == Err::<(), Error>(Error::BadOrigin),
            },
    {
        let who = match ensure_signed(origin) {
            Ok(who) => who,
            Err(e) => return Err(e),
        };
        let dna = self.gen_dna(entropy);
        self.mint(who, dna)
    }

    /// The signed caller gives the gato `id` to `to`.
    pub fn transfer(&mut self, origin: Origin, to: AccountId, id: Dna) -> (r: Result<(), Error>)
        requires
            old(self).wf(),
        ensures
            final(self).wf(),
            r is Err ==> *final(self) == *old(self),
            match origin {
                Origin::Signed(who) => {
                    &&& r == old(self).transfer_outcome(who, to, id)
                    &&& r is Ok ==> handed_over(*old(self), *final(self), id, to, old(self).assets()[id].price)
                    &&& r is Ok ==> final(self).event_log() == old(self).event_log().push(
                        Event::Transferred { from: who, to, gato_id: id },
                    )
                },
                _ => r == Err::<(), Error>(Error::BadOrigin),
            },
    {
        let who = match ensure_signed(origin) {
            Ok(who) => who,
            Err(e) => return Err(e),
        };
        self.do_transfer(who, to, id)
    }

    /// The signed caller lists the gato `id` at `new_price`, or unlists it.
    pub fn set_price(&mut self, origin: Origin, id: Dna, new_price: Option<Balance>) -> (r: Result<
        (),
        Error,
    >)
        requires
            old(self).wf(),
        ensures
            final(self).wf(),
            r is Err ==> *final(self) == *old(self),
            match origin {
                Origin::Signed(who) => {
                    &&& r == old(self).set_price_outcome(who, id)
                    &&& r is Ok ==> final(self).assets() == old(self).assets().insert(
                        id,
                        Gato { dna: id, owner: who, price: new_price },
                    )
                    &&& r is Ok ==> forall|w: AccountId| #[trigger] final(self).owned_by(w) == old(self).owned_by(w)
                    &&& r is Ok ==> final(self).supply() == old(self).supply()
                    &&& r is Ok ==> final(self).event_log() == old(self).event_log().push(
                        Event::PriceSet { owner: who, gato_id: id, new_price },
                    )
                },
                _ => r == Err::<(), Error>(Error::BadOrigin),
            },
    {
        let who = match ensure_signed(origin) {
            Ok(who) => who,
            Err(e) => return Err(e),
        };
        self.do_set_price(who, id, new_price)
    }

    /// The signed caller buys the gato `id` for at most `max_price`, paying
    /// its listed price from `balances`.
    pub fn buy_gato<C: NativeBalance>(&mut self, balances: &mut C, origin: Origin, id: Dna, max_price: Balance) -> (r: Result<(), Error>)
        requires
            old(self).wf(),
        ensures
            final(self).wf(),
            r is Err ==> *final(self) == *old(self) && *final(balances) == *old(balances),
            match origin {
                Origin::Signed(who) => {
                    let seller = old(self).assets()[id].owner;
                    let price = old(self).assets()[id].price.unwrap();
                    &&& r == old(self).buy_outcome(*old(balances), who, id, max_price)
                    &&& r is Ok ==> handed_over(*old(self), *final(self), id, who, None)
                    &&& r is Ok ==> final(self).assets()[id].price == None::<Balance>
                    &&& r is Ok ==> final(balances).balance_of(who) == old(balances).balance_of(who) - price
                    &&& r is Ok ==> final(balances).balance_of(seller) == old(balances).balance_of(seller) + price
                    &&& r is Ok ==> forall|w: AccountId|
                        w != who && w != seller ==> #[trigger] final(balances).balance_of(w) == old(balances).balance_of(w)
                    &&& r is Ok ==> final(self).event_log() == old(self).event_log().push(
                        Event::Sold { buyer: who, gato_id: id, price },
                    )
                },
                _ => r == Err::<(), Error>(Error::BadOrigin),
            },
    {
        let who = match ensure_signed(origin) {
            Ok(who) => who,
            Err(e) => return Err(e),
        };
        self.do_buy_gato(balances, who, id, max_price)
    }
}


/// A store without repeated identifiers has exactly as many keys as gatos.
proof fn lemma_store_len(s: Seq<Gato>)
    requires
        distinct_dnas(s),
    ensures
        store_of(s).dom().finite(),
        store_of(s).dom().len() == s.len(),
    decreases s.len(),
{
    if s.len() == 0 {
        assert(store_of(s).dom() =~= Set::<Dna>::empty());
    } else {
        let t = s.drop_last();
        let g = s.last();
        assert(distinct_dnas(t));
        lemma_store_len(t);
        assert(!store_of(t).contains_key(g.dna)) by {
            if has_dna(t, g.dna) {
                let i = choose|i: int| 0 <= i < t.len() && t[i].dna == g.dna;
                assert(s[i].dna == s[s.len() - 1].dna);
            }
        }
        lemma_store_push(t, g);
        assert(t.push(g) == s);
    }
}

/// The ledger's invariants, stated one by one: every index entry names a gato
/// of that owner; every gato stands exactly once in its owner's index; no
/// index exceeds its capacity.
pub proof fn lemma_wf_invariants(p: Pallet)
    requires
        p.wf(),
    ensures
        forall|w: AccountId, x: Dna| #[trigger]
            p.owned_by(w).contains(x) ==> p.assets().contains_key(x) && p.assets()[x].owner == w,
        forall|x: Dna| #[trigger]
            p.assets().contains_key(x) ==> p.owned_by(p.assets()[x].owner).contains(x),
        forall|w: AccountId| #[trigger] p.owned_by(w).no_duplicates(),
        forall|w: AccountId| #[trigger] p.owned_by(w).len() <= MAX_OWNED,
{
}

/// The supply counter equals the number of gatos in the store, in every
/// ledger that the operations reach.
pub proof fn lemma_supply_matches_store(p: Pallet)
    requires
        p.wf(),
    ensures
        p.assets().dom().finite(),
        p.supply() == p.assets().dom().len(),
{
    lemma_store_len(p.gatos@);
}

/// An owner who already holds the most gatos allowed can receive none: a mint
/// for them that passes the identifier and counter conditions, and a transfer to
/// them that passes the sender conditions, are refused with `TooManyOwned` (and a
/// refused call leaves the ledger as it was).
pub proof fn lemma_capacity_boundary(p: Pallet, owner: AccountId, dna: Dna, from: AccountId, id: Dna)
    requires
        p.wf(),
        p.owned_by(owner).len() == MAX_OWNED,
    ensures
        !p.assets().contains_key(dna) && p.supply() < u32::MAX ==> p.mint_outcome(owner, dna)
            == Err::<(), Error>(Error::TooManyOwned),
        from != owner && p.assets().contains_key(id) && p.assets()[id].owner == from
            ==> p.transfer_outcome(from, owner, id) == Err::<(), Error>(Error::TooManyOwned),
{
}


impl Pallet {
    /// The supply counter.
    pub fn count_for_gatos(&self) -> (r: u32)
        ensures
            r == self.supply(),
    {
        self.count
    }

    /// The gato with identifier `id`, if there is one.
    pub fn gato(&self, id: &Dna) -> (r: Option<Gato>)
        requires
            self.wf(),
        ensures
            r == (if self.assets().contains_key(*id) {
                Some(self.assets()[*id])
            } else {
                None::<Gato>
            }),
    {
        match self.find(id) {
            Some(i) => {
                proof {
                    lemma_store_index(self.gatos@, i as int);
                }
                Some(self.gatos[i])
            },
            None => None,
        }
    }

    /// The identifiers that `who` holds, in the index's order.
    pub fn gatos_owned(&self, who: AccountId) -> (r: Vec<Dna>)
        ensures
            r@ == self.owned_by(who),
    {
        let mut r: Vec<Dna> = Vec::new();
        match self.owned.get(&who) {
            Some(v) => {
                let mut i: usize = 0;
                while i < v.len()
                    invariant
                        0 <= i <= v@.len(),
                        r@ == v@.subrange(0, i as int),
                    decreases v@.len() - i,
                {
                    r.push(v[i]);
                    i = i + 1;
                }
                assert(r@ =~= v@);
            },
            None => {},
        }
        r
    }

    /// The identifiers of all gatos, in no promised order.
    pub fn gato_ids(&self) -> (r: Vec<Dna>)
        requires
            self.wf(),
        ensures
            r@.len() == self.supply(),
            r@.no_duplicates(),
            forall|x: Dna| #[trigger] r@.contains(x) <==> self.assets().contains_key(x),
    {
        let mut r: Vec<Dna> = Vec::new();
        let mut i: usize = 0;
        while i < self.gatos.len()
            invariant
                0 <= i <= self.gatos@.len(),
                r@.len() == i,
                forall|j: int| 0 <= j < i ==> #[trigger] r@[j] == self.gatos@[j].dna,
            decreases self.gatos@.len() - i,
        {
            r.push(self.gatos[i].dna);
            i = i + 1;
        }
        assert forall|x: Dna| #[trigger] r@.contains(x) <==> self.assets().contains_key(x) by {
            if r@.contains(x) {
                let j = choose|j: int| 0 <= j < r@.len() && r@[j] == x;
                assert(self.gatos@[j].dna == x);
            }
            if self.assets().contains_key(x) {
                let j = choose|j: int| 0 <= j < self.gatos@.len() && self.gatos@[j].dna == x;
                assert(r@[j] == x);
            }
        }
        r
    }

    /// The most recent event, if any.
    pub fn last_event(&self) -> (r: Option<Event>)
        ensures
            r == (if self.event_log().len() == 0 {
                None::<Event>
            } else {
                Some(self.event_log().last())
            }),
    {
        let n = self.events.len();
        if n == 0 {
            None
        } else {
            Some(self.events[n - 1])
        }
    }
}

} // verus!
