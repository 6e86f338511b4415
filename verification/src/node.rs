//! A model of one storage node: a table from resource keys to a stored
//! token and its expiry instant, with the three atomic primitives the
//! coordinator fans out — acquire (set if absent), extend (check and
//! reset expiry) and release (check and delete). An entry whose expiry has
//! passed counts as absent.

use vstd::prelude::*;

verus! {

/// One stored binding at a node: a resource key, the token that proves
/// ownership, and the instant (in milliseconds) at which the binding
/// lapses.
#[derive(Clone, Debug)]
pub struct NodeEntry {
    pub key: Vec<u8>,
    pub token: Vec<u8>,
    pub expires_at: u64,
}

/// One storage node: its current bindings, at most one per key.
#[derive(Clone, Debug)]
pub struct Node {
    pub entries: Vec<NodeEntry>,
}

impl Node {
    /// Each key is bound at most once.
    pub open spec fn wf(self) -> bool {
        forall|i: int, j: int|
            0 <= i < j < self.entries@.len() ==> self.entries@[i].key@ != self.entries@[j].key@
    }

    /// Some binding for `key` is present, live or lapsed.
    pub open spec fn has_key(self, key: Seq<u8>) -> bool {
        exists|i: int| 0 <= i < self.entries@.len() && self.entries@[i].key@ == key
    }

    /// The index of the binding for `key`; meaningful only under
    /// `has_key`.
    pub open spec fn key_index(self, key: Seq<u8>) -> int {
        choose|i: int| 0 <= i < self.entries@.len() && self.entries@[i].key@ == key
    }

    /// The token bound to `key`; meaningful only under `has_key`.
    pub open spec fn stored_token(self, key: Seq<u8>) -> Seq<u8> {
        self.entries@[self.key_index(key)].token@
    }

    /// The expiry instant of the binding for `key`; meaningful only under
    /// `has_key`.
    pub open spec fn stored_expiry(self, key: Seq<u8>) -> u64 {
        self.entries@[self.key_index(key)].expires_at
    }

    /// `key` is bound and the binding has not lapsed at `now`.
    pub open spec fn live(self, now: u64, key: Seq<u8>) -> bool {
        self.has_key(key) && self.stored_expiry(key) > now
    }

    /// `key` is live at `now` and bound to exactly `token`.
    pub open spec fn holds(self, now: u64, key: Seq<u8>, token: Seq<u8>) -> bool {
        self.live(now, key) && self.stored_token(key) == token
    }

    /// The two nodes bind `key` identically: both without a binding, or
    /// both with the same token and expiry.
    pub open spec fn agrees_on(self, other: Node, key: Seq<u8>) -> bool {
        &&& self.has_key(key) == other.has_key(key)
        &&& (self.has_key(key) ==> self.stored_token(key) == other.stored_token(key)
            && self.stored_expiry(key) == other.stored_expiry(key))
    }

    /// A node with no bindings.
    pub fn new() -> (r: Node)
        ensures
            r.wf(),
            r.entries@.len() == 0,
            forall|k: Seq<u8>| !r.has_key(k),
    {
        Node { entries: Vec::new() }
    }

    /// A binding at index `i` pins down every lookup for its key.
    pub proof fn lemma_key_at(self, key: Seq<u8>, i: int)
        requires
            self.wf(),
            0 <= i < self.entries@.len(),
            self.entries@[i].key@ == key,
        ensures
            self.has_key(key),
            self.key_index(key) == i,
            self.stored_token(key) == self.entries@[i].token@,
            self.stored_expiry(key) == self.entries@[i].expires_at,
    {
        assert(self.has_key(key));
        let j = self.key_index(key);
        if j < i {
            assert(self.entries@[j].key@ != self.entries@[i].key@);
        } else if j > i {
            assert(self.entries@[i].key@ != self.entries@[j].key@);
        }
    }
}

/// Replacing the entry at `i` by one with the same key keeps the node well
/// formed and leaves every other key's binding as it was.
proof fn lemma_replace_entry(a: Node, b: Node, i: int)
    requires
        a.wf(),
        0 <= i < a.entries@.len(),
        b.entries@.len() == a.entries@.len(),
        forall|j: int| 0 <= j < a.entries@.len() && j != i ==> b.entries@[j] == a.entries@[j],
        b.entries@[i].key@ == a.entries@[i].key@,
    ensures
        b.wf(),
        forall|k: Seq<u8>| k != a.entries@[i].key@ ==> b.agrees_on(a, k),
        b.has_key(a.entries@[i].key@),
        b.key_index(a.entries@[i].key@) == i,
{
    let key = a.entries@[i].key@;
    assert forall|j: int| 0 <= j < b.entries@.len() implies b.entries@[j].key@ == a.entries@[j].key@ by {}
    assert(b.wf());
    b.lemma_key_at(key, i);
    assert forall|k: Seq<u8>| k != key implies b.agrees_on(a, k) by {
        if a.has_key(k) {
            let ja = a.key_index(k);
            assert(a.entries@[ja].key@ == k);
            assert(ja != i);
            b.lemma_key_at(k, ja);
            a.lemma_key_at(k, ja);
        } else if b.has_key(k) {
            let jb = b.key_index(k);
            assert(a.entries@[jb].key@ == k);
            assert(a.has_key(k));
        }
    }
}

/// Appending a binding for a key that was absent keeps the node well
/// formed and leaves every other key's binding as it was.
proof fn lemma_push_entry(a: Node, b: Node)
    requires
        a.wf(),
        b.entries@.len() == a.entries@.len() + 1,
        forall|j: int| 0 <= j < a.entries@.len() ==> b.entries@[j] == a.entries@[j],
        !a.has_key(b.entries@[a.entries@.len() as int].key@),
    ensures
        b.wf(),
        forall|k: Seq<u8>| k != b.entries@[a.entries@.len() as int].key@ ==> b.agrees_on(a, k),
        b.has_key(b.entries@[a.entries@.len() as int].key@),
        b.key_index(b.entries@[a.entries@.len() as int].key@) == a.entries@.len(),
{
    let n = a.entries@.len() as int;
    let key = b.entries@[n].key@;
    assert forall|i: int, j: int| 0 <= i < j < b.entries@.len() implies b.entries@[i].key@
        != b.entries@[j].key@ by {
        if j < n {
            assert(a.entries@[i].key@ != a.entries@[j].key@);
        } else {
            assert(b.entries@[i] == a.entries@[i]);
            if b.entries@[i].key@ == key {
                assert(a.has_key(key));
            }
        }
    }
    b.lemma_key_at(key, n);
    assert forall|k: Seq<u8>| k != key implies b.agrees_on(a, k) by {
        if a.has_key(k) {
            let ja = a.key_index(k);
            assert(a.entries@[ja].key@ == k);
            b.lemma_key_at(k, ja);
            a.lemma_key_at(k, ja);
        } else if b.has_key(k) {
            let jb = b.key_index(k);
            assert(b.entries@[jb].key@ == k);
            assert(jb != n);
            assert(a.entries@[jb].key@ == k);
            assert(a.has_key(k));
        }
    }
}

/// Removing the binding at `i` keeps the node well formed, unbinds that
/// key, and leaves every other key's binding as it was.
proof fn lemma_remove_entry(a: Node, b: Node, i: int)
    requires
        a.wf(),
        0 <= i < a.entries@.len(),
        b.entries@ == a.entries@.remove(i),
    ensures
        b.wf(),
        !b.has_key(a.entries@[i].key@),
        forall|k: Seq<u8>| k != a.entries@[i].key@ ==> b.agrees_on(a, k),
{
    let key = a.entries@[i].key@;
    assert forall|p: int, q: int| 0 <= p < q < b.entries@.len() implies b.entries@[p].key@
        != b.entries@[q].key@ by {
        let pa: int = if p < i { p } else { p + 1 };
        let qa: int = if q < i { q } else { q + 1 };
        assert(b.entries@[p] == a.entries@[pa]);
        assert(b.entries@[q] == a.entries@[qa]);
        assert(a.entries@[pa].key@ != a.entries@[qa].key@);
    }
    assert(b.wf());
    if b.has_key(key) {
        let jb = b.key_index(key);
        let ja: int = if jb < i { jb } else { jb + 1 };
        assert(b.entries@[jb] == a.entries@[ja]);
        assert(ja != i);
        assert(a.entries@[ja].key@ == a.entries@[i].key@);
    }
    assert forall|k: Seq<u8>| k != key implies b.agrees_on(a, k) by {
        if a.has_key(k) {
            let ja = a.key_index(k);
            assert(a.entries@[ja].key@ == k);
            a.lemma_key_at(k, ja);
            assert(ja != i);
            let jb: int = if ja < i { ja } else { ja - 1 };
            assert(b.entries@[jb] == a.entries@[ja]);
            b.lemma_key_at(k, jb);
        } else if b.has_key(k) {
            let jb = b.key_index(k);
            let ja: int = if jb < i { jb } else { jb + 1 };
            assert(b.entries@[jb] == a.entries@[ja]);
            assert(a.has_key(k));
        }
    }
}

/// Byte-for-byte equality of two keys or tokens.
pub fn bytes_eq(a: &Vec<u8>, b: &Vec<u8>) -> (r: bool)
    ensures
        r == (a@ == b@),
{
    if a.len() != b.len() {
        return false;
    }
    let mut i: usize = 0;
    while i < a.len()
        invariant
            i <= a@.len(),
            a@.len() == b@.len(),
            forall|j: int| 0 <= j < i ==> a@[j] == b@[j],
        decreases a@.len() - i,
    {
        if a[i] != b[i] {
            return false;
        }
        i = i + 1;
    }
    proof {
        assert(a@ =~= b@);
    }
    true
}

/// An owned copy of a key or token.
pub fn copy_bytes(a: &Vec<u8>) -> (r: Vec<u8>)
    ensures
        r@ == a@,
{
    let mut r: Vec<u8> = Vec::new();
    let mut i: usize = 0;
    while i < a.len()
        invariant
            i <= a@.len(),
            r@ == a@.subrange(0, i as int),
        decreases a@.len() - i,
    {
        r.push(a[i]);
        proof {
            assert(r@ =~= a@.subrange(0, i + 1));
        }
        i = i + 1;
    }
    proof {
        assert(a@.subrange(0, a@.len() as int) =~= a@);
    }
    r
}

impl Node {
    /// The index of the binding for `key`, if any.
    fn find_index(&self, key: &Vec<u8>) -> (r: Option<usize>)
        ensures
            r matches Some(i) ==> i < self.entries@.len() && self.entries@[i as int].key@ == key@,
            r is None ==> !self.has_key(key@),
    {
        let mut i: usize = 0;
        while i < self.entries.len()
            invariant
                i <= self.entries@.len(),
                forall|j: int| 0 <= j < i ==> self.entries@[j].key@ != key@,
            decreases self.entries@.len() - i,
        {
            if bytes_eq(&self.entries[i].key, key) {
                return Some(i);
            }
            i = i + 1;
        }
        None
    }

    /// The acquire primitive: bind `key` to `token` for `ttl` milliseconds,
    /// but only if `key` is not live at `now`. A node rejects a zero TTL,
    /// so such a call never succeeds and changes nothing.
    pub fn acquire(&mut self, now: u64, key: &Vec<u8>, token: &Vec<u8>, ttl: usize) -> (r: bool)
        requires
            old(self).wf(),
            now + ttl <= u64::MAX,
        ensures
            final(self).wf(),
            r == (ttl >= 1 && !old(self).live(now, key@)),
            r ==> final(self).has_key(key@) && final(self).stored_token(key@) == token@
                && final(self).stored_expiry(key@) == now + ttl,
            !r ==> final(self).entries@ == old(self).entries@,
            forall|k: Seq<u8>| k != key@ ==> final(self).agrees_on(*old(self), k),
    {
        let ghost a = *self;
        match self.find_index(key) {
            Some(i) => {
                proof {
                    a.lemma_key_at(key@, i as int);
                }
                if self.entries[i].expires_at > now {
                    assert(a.live(now, key@));
                    assert forall|k: Seq<u8>| k != key@ implies self.agrees_on(a, k) by {}
                    false
                } else if ttl == 0 {
                    assert forall|k: Seq<u8>| k != key@ implies self.agrees_on(a, k) by {}
                    false
                } else {
                    let e = NodeEntry {
                        key: copy_bytes(key),
                        token: copy_bytes(token),
                        expires_at: now + ttl as u64,
                    };
                    let _ = self.entries.remove(i);
                    self.entries.insert(i, e);
                    proof {
                        assert(self.entries@ =~= a.entries@.update(i as int, self.entries@[i as int]));
                        lemma_replace_entry(a, *self, i as int);
                        self.lemma_key_at(key@, i as int);
                    }
                    true
                }
            },
            None => {
                if ttl == 0 {
                    assert forall|k: Seq<u8>| k != key@ implies self.agrees_on(a, k) by {}
                    false
                } else {
                    let e = NodeEntry {
                        key: copy_bytes(key),
                        token: copy_bytes(token),
                        expires_at: now + ttl as u64,
                    };
                    self.entries.push(e);
                    proof {
                        lemma_push_entry(a, *self);
                        self.lemma_key_at(key@, a.entries@.len() as int);
                    }
                    true
                }
            },
        }
    }

    /// The extend primitive: if `key` is live at `now` and bound to exactly
    /// `token`, reset its expiry to `ttl` milliseconds from `now`;
    /// otherwise do nothing. A node rejects a zero TTL, so such a call
    /// never succeeds and changes nothing.
    pub fn extend(&mut self, now: u64, key: &Vec<u8>, token: &Vec<u8>, ttl: usize) -> (r: bool)
        requires
            old(self).wf(),
            now + ttl <= u64::MAX,
        ensures
            final(self).wf(),
            r == (ttl >= 1 && old(self).holds(now, key@, token@)),
            r ==> final(self).has_key(key@) && final(self).stored_token(key@) == token@
                && final(self).stored_expiry(key@) == now + ttl,
            !r ==> final(self).entries@ == old(self).entries@,
            forall|k: Seq<u8>| k != key@ ==> final(self).agrees_on(*old(self), k),
    {
        let ghost a = *self;
        match self.find_index(key) {
            Some(i) => {
                proof {
                    a.lemma_key_at(key@, i as int);
                }
                if ttl >= 1 && self.entries[i].expires_at > now && bytes_eq(
                    &self.entries[i].token,
                    token,
                ) {
                    let e = NodeEntry {
                        key: copy_bytes(key),
                        token: copy_bytes(token),
                        expires_at: now + ttl as u64,
                    };
                    let _ = self.entries.remove(i);
                    self.entries.insert(i, e);
                    proof {
                        assert(self.entries@ =~= a.entries@.update(i as int, self.entries@[i as int]));
                        lemma_replace_entry(a, *self, i as int);
                        self.lemma_key_at(key@, i as int);
                    }
                    true
                } else {
                    assert forall|k: Seq<u8>| k != key@ implies self.agrees_on(a, k) by {}
                    false
                }
            },
            None => {
                assert forall|k: Seq<u8>| k != key@ implies self.agrees_on(a, k) by {}
                false
            },
        }
    }

    /// The release primitive: if `key` is live at `now` and bound to
    /// exactly `token`, delete the binding; otherwise do nothing. A call
    /// with a token other than the stored one returns false and removes
    /// nothing.
    pub fn release(&mut self, now: u64, key: &Vec<u8>, token: &Vec<u8>) -> (r: bool)
        requires
            old(self).wf(),
        ensures
            final(self).wf(),
            r == old(self).holds(now, key@, token@),
            r ==> !final(self).has_key(key@),
            !r ==> final(self).entries@ == old(self).entries@,
            forall|k: Seq<u8>| k != key@ ==> final(self).agrees_on(*old(self), k),
    {
        let ghost a = *self;
        match self.find_index(key) {
            Some(i) => {
                proof {
                    a.lemma_key_at(key@, i as int);
                }
                if self.entries[i].expires_at > now && bytes_eq(&self.entries[i].token, token) {
                    let _ = self.entries.remove(i);
                    proof {
                        lemma_remove_entry(a, *self, i as int);
                    }
                    true
                } else {
                    assert forall|k: Seq<u8>| k != key@ implies self.agrees_on(a, k) by {}
                    false
                }
            },
            None => {
                assert forall|k: Seq<u8>| k != key@ implies self.agrees_on(a, k) by {}
                false
            },
        }
    }

    /// A direct read of `key` at `now`: the stored token while the binding
    /// is live, absent otherwise.
    pub fn get(&self, now: u64, key: &Vec<u8>) -> (r: Option<Vec<u8>>)
        requires
            self.wf(),
        ensures
            (r is Some) == self.live(now, key@),
            r matches Some(t) ==> t@ == self.stored_token(key@),
    {
        match self.find_index(key) {
            Some(i) => {
                proof {
                    self.lemma_key_at(key@, i as int);
                }
                if self.entries[i].expires_at > now {
                    Some(copy_bytes(&self.entries[i].token))
                } else {
                    None
                }
            },
            None => None,
        }
    }
}

} // verus!
