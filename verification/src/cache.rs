//! The response cache: one entry per address, each with an absolute expiry
//! time, read with lazy expiry (a stale entry found by a lookup is evicted
//! on the spot; there is no background sweeper and no capacity bound).

use vstd::prelude::*;

use crate::ip::IpAddress;

verus! {

/// A cached upstream response: the raw body and the time after which the
/// entry is stale.
pub struct CacheEntry {
    pub body: Vec<u8>,
    pub expires_at: u64,
}

/// The mathematical contents of a cache: address to (body, expiry).
pub open spec fn map_of(s: Seq<(IpAddress, CacheEntry)>) -> Map<IpAddress, (Seq<u8>, u64)>
    decreases s.len(),
{
    if s.len() == 0 {
        Map::empty()
    } else {
        map_of(s.drop_last()).insert(s.last().0, (s.last().1.body@, s.last().1.expires_at))
    }
}

pub open spec fn keys_unique(s: Seq<(IpAddress, CacheEntry)>) -> bool {
    forall|p: int, q: int| 0 <= p < q < s.len() ==> (#[trigger] s[p]).0 != (#[trigger] s[q]).0
}

proof fn lemma_map_of_contains(s: Seq<(IpAddress, CacheEntry)>, k: IpAddress)
    ensures
        map_of(s).contains_key(k) <==> (exists|i: int| 0 <= i < s.len() && (#[trigger] s[i]).0 == k),
    decreases s.len(),
{
    if s.len() > 0 {
        let sp = s.drop_last();
        lemma_map_of_contains(sp, k);
        if map_of(s).contains_key(k) {
            if k == s.last().0 {
                assert(s[s.len() - 1].0 == k);
            } else {
                let i = choose|i: int| 0 <= i < sp.len() && sp[i].0 == k;
                assert(s[i].0 == k);
            }
        }
        if exists|i: int| 0 <= i < s.len() && (#[trigger] s[i]).0 == k {
            let i = choose|i: int| 0 <= i < s.len() && (#[trigger] s[i]).0 == k;
            if i < s.len() - 1 {
                assert(sp[i].0 == k);
            }
        }
    }
}

proof fn lemma_map_of_value(s: Seq<(IpAddress, CacheEntry)>, i: int)
    requires
        keys_unique(s),
        0 <= i < s.len(),
    ensures
        map_of(s).contains_key(s[i].0),
        map_of(s)[s[i].0] == (s[i].1.body@, s[i].1.expires_at),
    decreases s.len(),
{
    let sp = s.drop_last();
    if i < s.len() - 1 {
        assert(keys_unique(sp));
        lemma_map_of_value(sp, i);
        assert(s[i].0 != s[s.len() - 1].0);
    }
}

proof fn lemma_keys_unique_remove(s: Seq<(IpAddress, CacheEntry)>, i: int)
    requires
        keys_unique(s),
        0 <= i < s.len(),
    ensures
        keys_unique(s.remove(i)),
{
    let t = s.remove(i);
    assert forall|p: int, q: int| 0 <= p < q < t.len() implies (#[trigger] t[p]).0 != (
    #[trigger] t[q]).0 by {
        let p0 = if p < i {
            p
        } else {
            p + 1
        };
        let q0 = if q < i {
            q
        } else {
            q + 1
        };
        assert(t[p] == s[p0]);
        assert(t[q] == s[q0]);
        assert(s[p0].0 != s[q0].0);
    }
}

proof fn lemma_map_of_remove(s: Seq<(IpAddress, CacheEntry)>, i: int)
    requires
        keys_unique(s),
        0 <= i < s.len(),
    ensures
        map_of(s.remove(i)) == map_of(s).remove(s[i].0),
    decreases s.len(),
{
    let sp = s.drop_last();
    let k = s[i].0;
    if i == s.len() - 1 {
        assert(s.remove(i) =~= sp);
        assert forall|j: int| 0 <= j < sp.len() implies (#[trigger] sp[j]).0 != k by {
            assert(s[j].0 != s[s.len() - 1].0);
        }
        lemma_map_of_contains(sp, k);
        assert(!map_of(sp).contains_key(k));
        assert(map_of(sp) =~= map_of(sp).insert(k, (s.last().1.body@, s.last().1.expires_at)).remove(
            k,
        ));
    } else {
        assert(keys_unique(sp));
        lemma_map_of_remove(sp, i);
        let t = s.remove(i);
        assert(t.drop_last() =~= sp.remove(i));
        assert(t.last() == s.last());
        assert(map_of(t) == map_of(sp.remove(i)).insert(
            s.last().0,
            (s.last().1.body@, s.last().1.expires_at),
        ));
        assert(s[i].0 != s.last().0);
        assert(map_of(sp).remove(k).insert(s.last().0, (s.last().1.body@, s.last().1.expires_at))
            =~= map_of(sp).insert(s.last().0, (s.last().1.body@, s.last().1.expires_at)).remove(k));
    }
}

/// A fresh copy of a byte vector.
pub(crate) fn copy_bytes(v: &Vec<u8>) -> (r: Vec<u8>)
    ensures
        r@ == v@,
{
    let mut out: Vec<u8> = Vec::new();
    let mut i: usize = 0;
    while i < v.len()
        invariant
            i <= v@.len(),
            out@ == v@.subrange(0, i as int),
        decreases v@.len() - i,
    {
        out.push(v[i]);
        proof {
            assert(out@ =~= v@.subrange(0, i + 1));
        }
        i = i + 1;
    }
    proof {
        assert(v@.subrange(0, v@.len() as int) =~= v@);
    }
    out
}

/// What a lookup at time `now` returns and leaves behind: the body of a
/// present, still-fresh entry (`now` strictly before the expiry) with the
/// contents unchanged; nothing, with a present-but-stale entry evicted;
/// nothing, with the contents unchanged, on a true miss.
pub open spec fn spec_lookup(
    m: Map<IpAddress, (Seq<u8>, u64)>,
    ip: IpAddress,
    now: u64,
) -> (Option<Seq<u8>>, Map<IpAddress, (Seq<u8>, u64)>) {
    if m.contains_key(ip) {
        if now < m[ip].1 {
            (Some(m[ip].0), m)
        } else {
            (None, m.remove(ip))
        }
    } else {
        (None, m)
    }
}

/// The bounded-lifetime store, keyed by parsed address.
pub struct Cache {
    entries: Vec<(IpAddress, CacheEntry)>,
}

impl View for Cache {
    type V = Map<IpAddress, (Seq<u8>, u64)>;

    closed spec fn view(&self) -> Map<IpAddress, (Seq<u8>, u64)> {
        map_of(self.entries@)
    }
}

impl Cache {
    pub closed spec fn wf(&self) -> bool {
        keys_unique(self.entries@)
    }

    /// An empty cache.
    pub fn new() -> (c: Cache)
        ensures
            c.wf(),
            c@ == Map::<IpAddress, (Seq<u8>, u64)>::empty(),
    {
        Cache { entries: Vec::new() }
    }

    /// The index of the entry for `ip`, if one is held.
    fn find(&self, ip: IpAddress) -> (r: usize)
        ensures
            r <= self.entries@.len(),
            r < self.entries@.len() ==> self.entries@[r as int].0 == ip,
            r == self.entries@.len() ==> forall|q: int|
                0 <= q < self.entries@.len() ==> (#[trigger] self.entries@[q]).0 != ip,
    {
        let n = self.entries.len();
        let mut idx: usize = 0;
        while idx < n && self.entries[idx].0 != ip
            invariant
                idx <= n,
                n == self.entries@.len(),
                forall|q: int| 0 <= q < idx ==> (#[trigger] self.entries@[q]).0 != ip,
            decreases n - idx,
        {
            idx = idx + 1;
        }
        idx
    }

    /// Returns the cached body for `ip` if one is held and still fresh at
    /// `now`; evicts a stale entry it meets. Exactly `spec_lookup`.
    pub fn lookup(&mut self, ip: IpAddress, now: u64) -> (r: Option<Vec<u8>>)
        requires
            old(self).wf(),
        ensures
            final(self).wf(),
            final(self)@ == spec_lookup(old(self)@, ip, now).1,
            (match r {
                Some(b) => spec_lookup(old(self)@, ip, now).0 == Some(b@),
                None => spec_lookup(old(self)@, ip, now).0 is None,
            }),
    {
        let idx = self.find(ip);
        proof {
            lemma_map_of_contains(self.entries@, ip);
        }
        if idx == self.entries.len() {
            return None;
        }
        proof {
            lemma_map_of_value(self.entries@, idx as int);
        }
        let expires = self.entries[idx].1.expires_at;
        if now < expires {
            let b = copy_bytes(&self.entries[idx].1.body);
            Some(b)
        } else {
            let ghost pre = self.entries@;
            let _stale = self.entries.remove(idx);
            proof {
                lemma_map_of_remove(pre, idx as int);
                lemma_keys_unique_remove(pre, idx as int);
            }
            None
        }
    }

    /// Inserts or overwrites the entry for `ip`.
    pub fn store(&mut self, ip: IpAddress, body: Vec<u8>, expires_at: u64)
        requires
            old(self).wf(),
        ensures
            final(self).wf(),
            final(self)@ == old(self)@.insert(ip, (body@, expires_at)),
    {
        let ghost m0 = self@;
        let idx = self.find(ip);
        if idx < self.entries.len() {
            let ghost pre = self.entries@;
            let _old_entry = self.entries.remove(idx);
            proof {
                lemma_map_of_remove(pre, idx as int);
                lemma_keys_unique_remove(pre, idx as int);
                assert forall|q: int| 0 <= q < self.entries@.len() implies (
                #[trigger] self.entries@[q]).0 != ip by {
                    let q0 = if q < idx {
                        q
                    } else {
                        q + 1
                    };
                    assert(self.entries@[q] == pre[q0]);
                    if q0 != idx {
                        assert(pre[q0].0 != pre[idx as int].0);
                    }
                }
            }
        }
        let ghost mid = self.entries@;
        self.entries.push((ip, CacheEntry { body, expires_at }));
        proof {
            assert(self.entries@.drop_last() =~= mid);
            assert(self.entries@.last() == self.entries@[self.entries@.len() - 1]);
            assert(map_of(self.entries@) == map_of(mid).insert(
                ip,
                (self.entries@.last().1.body@, self.entries@.last().1.expires_at),
            ));
            assert(map_of(mid).insert(ip, (self.entries@.last().1.body@,
                self.entries@.last().1.expires_at)) =~= m0.insert(ip, (self.entries@.last().1.body@,
                self.entries@.last().1.expires_at)));
            assert forall|p: int, q: int|
                0 <= p < q < self.entries@.len() implies (#[trigger] self.entries@[p]).0 != (
            #[trigger] self.entries@[q]).0 by {
                if q == self.entries@.len() - 1 {
                    assert(mid[p].0 != ip);
                } else {
                    assert(mid[p].0 != mid[q].0);
                }
            }
        }
    }
}

} // verus!
