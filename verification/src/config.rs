//! The shared routing/mixer state: per-channel volume, balance and mono
//! settings, the mixer's output-to-input wiring, the monitor selection, and
//! the registry of one-shot notification subscriptions. All mutation paths of
//! the command protocol go through the methods here.

use vstd::prelude::*;

use crate::gain::BAL_MAX;
use crate::gain::Gain;
use crate::gain::VOL_MAX;
use crate::gain::spec_bal_pair;
use crate::gain::spec_vol_gain;
use crate::utils::ConnectionGraph;

verus! {

/// Settings of one logical channel. `vol` is kept in hundredths of a percent
/// (default 10_000, that is 100%), `balance` in hundredths of a unit
/// (default 0), and `mono` is fixed at registration time.
#[derive(Clone, Copy, PartialEq, Eq, Structural, Debug)]
pub struct PortConfig {
    pub vol: i64,
    pub balance: i64,
    pub mono: bool,
}

impl PortConfig {
    pub open spec fn wf(&self) -> bool {
        &&& 0 <= self.vol <= VOL_MAX
        &&& -BAL_MAX <= self.balance <= BAL_MAX
    }

    pub open spec fn spec_vol_gain(&self) -> Gain {
        spec_vol_gain(self.vol as int)
    }

    pub open spec fn spec_bal_pair(&self) -> (Gain, Gain) {
        spec_bal_pair(self.balance as int)
    }

    pub fn new(vol: i64, balance: i64, mono: bool) -> (c: PortConfig)
        requires
            0 <= vol <= VOL_MAX,
            -BAL_MAX <= balance <= BAL_MAX,
        ensures
            c == (PortConfig { vol, balance, mono }),
            c.wf(),
    {
        PortConfig { vol, balance, mono }
    }

    /// The linear multiplier this channel applies: stored volume over 10_000,
    /// which is the configured percentage divided by 100.
    pub fn get_vol(&self) -> (g: Gain)
        requires
            self.wf(),
        ensures
            g == self.spec_vol_gain(),
            g.vol1_wf(),
    {
        crate::gain::vol_gain(self.vol)
    }

    pub fn get_balance(&self) -> (b: i64)
        ensures
            b == self.balance,
    {
        self.balance
    }

    /// The left/right multipliers derived from the balance: `(1 + b, 1 - b)`.
    pub fn get_balance_pair(&self) -> (p: (Gain, Gain))
        requires
            self.wf(),
        ensures
            p == self.spec_bal_pair(),
            p.0.bal1_wf(),
            p.1.bal1_wf(),
    {
        crate::gain::bal_pair(self.balance)
    }

    pub fn is_mono(&self) -> (m: bool)
        ensures
            m == self.mono,
    {
        self.mono
    }
}

impl Default for PortConfig {
    /// Volume 100%, centered balance, stereo.
    fn default() -> (c: PortConfig)
        ensures
            c == (PortConfig { vol: 10_000, balance: 0, mono: false }),
    {
        PortConfig { vol: 10_000, balance: 0, mono: false }
    }
}

/// A name-keyed collection of channel settings, with unique names.
pub struct PortMap {
    entries: Vec<(String, PortConfig)>,
}

impl PortMap {
    /// The settings stored under `k`, if any (first match; names are unique).
    pub closed spec fn spec_lookup(s: Seq<(String, PortConfig)>, k: Seq<char>) -> Option<
        PortConfig,
    >
        decreases s.len(),
    {
        if s.len() == 0 {
            None
        } else if s[0].0@ == k {
            Some(s[0].1)
        } else {
            Self::spec_lookup(s.skip(1), k)
        }
    }

    pub closed spec fn spec_get(&self, k: Seq<char>) -> Option<PortConfig> {
        Self::spec_lookup(self.entries@, k)
    }

    pub open spec fn contains_name(&self, k: Seq<char>) -> bool {
        self.spec_get(k) is Some
    }

    pub closed spec fn wf(&self) -> bool {
        &&& forall|a: int, b: int|
            0 <= a < b < self.entries@.len() ==> (#[trigger] self.entries@[a].0@) != (
            #[trigger] self.entries@[b].0@)
        &&& forall|j: int| 0 <= j < self.entries@.len() ==> (#[trigger] self.entries@[j].1).wf()
    }

    /// The number of entries.
    pub closed spec fn spec_len(&self) -> int {
        self.entries@.len() as int
    }

    /// The name stored at position `j`.
    pub closed spec fn name_at(&self, j: int) -> Seq<char> {
        self.entries@[j].0@
    }

    /// The settings stored at position `j`.
    pub closed spec fn cfg_at(&self, j: int) -> PortConfig {
        self.entries@[j].1
    }

    pub fn new() -> (r: PortMap)
        ensures
            r.wf(),
            forall|k: Seq<char>| r.spec_get(k) is None,
            r.spec_len() == 0,
    {
        PortMap { entries: Vec::new() }
    }

    /// If the lookup hits, some entry holds the result; if it misses, no
    /// entry has the name.
    proof fn lemma_lookup_index(s: Seq<(String, PortConfig)>, k: Seq<char>)
        ensures
            match Self::spec_lookup(s, k) {
                Some(c) => exists|j: int|
                    0 <= j < s.len() && (#[trigger] s[j].0@) == k && s[j].1 == c,
                None => forall|j: int| 0 <= j < s.len() ==> (#[trigger] s[j].0@) != k,
            },
        decreases s.len(),
    {
        if s.len() > 0 {
            if s[0].0@ == k {
            } else {
                Self::lemma_lookup_index(s.skip(1), k);
                match Self::spec_lookup(s.skip(1), k) {
                    Some(c) => {
                        let j = choose|j: int|
                            0 <= j < s.skip(1).len() && (#[trigger] s.skip(1)[j].0@) == k && s.skip(
                                1,
                            )[j].1 == c;
                        assert(s[j + 1].0@ == k && s[j + 1].1 == c);
                    },
                    None => {
                        assert forall|j: int| 0 <= j < s.len() implies (#[trigger] s[j].0@)
                            != k by {
                            if j > 0 {
                                assert(s.skip(1)[j - 1].0@ != k);
                            }
                        }
                    },
                }
            }
        }
    }

    /// A scan that finds the name at `j`, with no earlier match, agrees with
    /// the lookup.
    proof fn lemma_lookup_at(s: Seq<(String, PortConfig)>, k: Seq<char>, j: int)
        requires
            0 <= j < s.len(),
            s[j].0@ == k,
            forall|m: int| 0 <= m < j ==> (#[trigger] s[m].0@) != k,
        ensures
            Self::spec_lookup(s, k) == Some(s[j].1),
        decreases j,
    {
        if j == 0 {
        } else {
            assert(s[0].0@ != k);
            assert(s.skip(1)[j - 1] == s[j]);
            assert forall|m: int| 0 <= m < j - 1 implies (#[trigger] s.skip(1)[m].0@) != k by {
                assert(s.skip(1)[m] == s[m + 1]);
            }
            Self::lemma_lookup_at(s.skip(1), k, j - 1);
        }
    }

    /// Replacing the value at `j` (same name) changes exactly that name's
    /// lookup.
    proof fn lemma_lookup_update(
        s: Seq<(String, PortConfig)>,
        j: int,
        c2: PortConfig,
        k: Seq<char>,
    )
        requires
            0 <= j < s.len(),
            forall|m: int| 0 <= m < j ==> (#[trigger] s[m].0@) != s[j].0@,
        ensures
            Self::spec_lookup(s.update(j, (s[j].0, c2)), k) == if k == s[j].0@ {
                Some(c2)
            } else {
                Self::spec_lookup(s, k)
            },
        decreases j,
    {
        let s2 = s.update(j, (s[j].0, c2));
        if j == 0 {
            if k == s[0].0@ {
            } else {
                assert(s2.skip(1) =~= s.skip(1));
            }
        } else {
            assert(s2[0] == s[0]);
            if k == s[0].0@ {
                assert(k != s[j].0@);
            } else {
                assert(s2.skip(1) =~= s.skip(1).update(j - 1, (s.skip(1)[j - 1].0, c2)));
                assert forall|m: int| 0 <= m < j - 1 implies (#[trigger] s.skip(1)[m].0@) != s.skip(
                    1,
                )[j - 1].0@ by {
                    assert(s.skip(1)[m] == s[m + 1]);
                    assert(s.skip(1)[j - 1] == s[j]);
                }
                Self::lemma_lookup_update(s.skip(1), j - 1, c2, k);
                assert(s.skip(1)[j - 1] == s[j]);
            }
        }
    }

    /// Appending a fresh name changes exactly that name's lookup.
    proof fn lemma_lookup_push(
        s: Seq<(String, PortConfig)>,
        e: (String, PortConfig),
        k: Seq<char>,
    )
        requires
            forall|m: int| 0 <= m < s.len() ==> (#[trigger] s[m].0@) != e.0@,
        ensures
            Self::spec_lookup(s.push(e), k) == if k == e.0@ {
                Some(e.1)
            } else {
                Self::spec_lookup(s, k)
            },
        decreases s.len(),
    {
        if s.len() == 0 {
            assert(s.push(e)[0] == e);
            if k != e.0@ {
                assert(Self::spec_lookup(s.push(e), k) == Self::spec_lookup(
                    s.push(e).skip(1),
                    k,
                ));
                assert(s.push(e).skip(1) =~= s);
            }
        } else {
            assert(s.push(e)[0] == s[0]);
            if k == s[0].0@ {
                assert(k != e.0@);
            } else {
                assert(s.push(e).skip(1) =~= s.skip(1).push(e));
                assert forall|m: int| 0 <= m < s.skip(1).len() implies (
                #[trigger] s.skip(1)[m].0@) != e.0@ by {
                    assert(s.skip(1)[m] == s[m + 1]);
                }
                Self::lemma_lookup_push(s.skip(1), e, k);
            }
        }
    }

    /// Index of the entry named `name`.
    fn find(&self, name: &str) -> (r: Option<usize>)
        ensures
            match r {
                Some(j) => j < self.entries@.len() && self.entries@[j as int].0@ == name@
                    && self.spec_get(name@) == Some(self.entries@[j as int].1) && (forall|m: int|
                    0 <= m < j ==> (#[trigger] self.entries@[m].0@) != name@),
                None => self.spec_get(name@) is None,
            },
    {
        let n = self.entries.len();
        for j in 0..n
            invariant
                n == self.entries@.len(),
                forall|m: int| 0 <= m < j ==> (#[trigger] self.entries@[m].0@) != name@,
        {
            if crate::utils::str_eq(self.entries[j].0.as_str(), name) {
                proof {
                    Self::lemma_lookup_at(self.entries@, name@, j as int);
                }
                return Some(j);
            }
        }
        proof {
            Self::lemma_lookup_index(self.entries@, name@);
            if self.spec_get(name@) is Some {
                let j = choose|j: int|
                    0 <= j < self.entries@.len() && (#[trigger] self.entries@[j].0@) == name@
                        && self.entries@[j].1 == self.spec_get(name@)->Some_0;
                assert(false);
            }
        }
        None
    }

    pub fn get(&self, name: &str) -> (r: Option<PortConfig>)
        ensures
            r == self.spec_get(name@),
    {
        match self.find(name) {
            Some(j) => Some(self.entries[j].1),
            None => None,
        }
    }

    pub fn contains(&self, name: &str) -> (r: bool)
        ensures
            r == self.contains_name(name@),
    {
        self.find(name).is_some()
    }

    /// Store `cfg` under `name`, replacing an existing entry of that name.
    pub fn insert(&mut self, name: &str, cfg: PortConfig)
        requires
            old(self).wf(),
            cfg.wf(),
        ensures
            final(self).wf(),
            forall|k: Seq<char>| #[trigger] final(self).spec_get(k) == if k == name@ {
                Some(cfg)
            } else {
                old(self).spec_get(k)
            },
    {
        match self.find(name) {
            Some(j) => {
                let ghost s = self.entries@;
                let ghost jj = j as int;
                self.entries[j].1 = cfg;
                proof {
                    assert(self.entries@ =~= s.update(jj, (s[jj].0, cfg)));
                    assert forall|k: Seq<char>| #[trigger] self.spec_get(k) == if k == name@ {
                        Some(cfg)
                    } else {
                        old(self).spec_get(k)
                    } by {
                        Self::lemma_lookup_update(s, jj, cfg, k);
                    }
                    assert(self.wf()) by {
                        assert forall|a: int, b: int|
                            0 <= a < b < self.entries@.len() implies (
                        #[trigger] self.entries@[a].0@) != (#[trigger] self.entries@[b].0@) by {
                            assert(s[a].0@ != s[b].0@);
                        }
                    }
                }
            },
            None => {
                let ghost s = self.entries@;
                let owned = name.to_owned();
                let ghost e = (owned, cfg);
                self.entries.push((owned, cfg));
                proof {
                    Self::lemma_lookup_index(s, name@);
                    assert forall|m: int| 0 <= m < s.len() implies (#[trigger] s[m].0@)
                        != e.0@ by {}
                    assert forall|k: Seq<char>| #[trigger] self.spec_get(k) == if k == name@ {
                        Some(cfg)
                    } else {
                        old(self).spec_get(k)
                    } by {
                        Self::lemma_lookup_push(s, e, k);
                    }
                    assert(self.wf()) by {
                        assert forall|a: int, b: int|
                            0 <= a < b < self.entries@.len() implies (
                        #[trigger] self.entries@[a].0@) != (#[trigger] self.entries@[b].0@) by {
                            if b == s.len() {
                                assert(s[a].0@ != e.0@);
                            } else {
                                assert(s[a].0@ != s[b].0@);
                            }
                        }
                    }
                }
            },
        }
    }

    /// The stored names, in insertion order.
    pub fn names(&self) -> (r: Vec<String>)
        ensures
            r@.len() == self.spec_len(),
            forall|m: int| 0 <= m < r@.len() ==> (#[trigger] r@[m]@) == self.name_at(m),
    {
        let mut r: Vec<String> = Vec::new();
        let n = self.entries.len();
        for j in 0..n
            invariant
                n == self.entries@.len(),
                r@.len() == j,
                forall|m: int| 0 <= m < j ==> (#[trigger] r@[m]@) == self.entries@[m].0@,
        {
            r.push(self.entries[j].0.clone());
        }
        r
    }

    /// Every stored name has a stored configuration.
    pub proof fn lemma_name_at_contains(&self, j: int)
        requires
            self.wf(),
            0 <= j < self.spec_len(),
        ensures
            self.contains_name(self.name_at(j)),
            self.spec_get(self.name_at(j)) == Some(self.cfg_at(j)),
    {
        assert forall|m: int| 0 <= m < j implies (#[trigger] self.entries@[m].0@) != self.name_at(
            j,
        ) by {}
        Self::lemma_lookup_at(self.entries@, self.name_at(j), j);
    }

    /// Every stored configuration is well formed.
    pub proof fn lemma_get_wf(&self, k: Seq<char>)
        requires
            self.wf(),
            self.spec_get(k) is Some,
        ensures
            self.spec_get(k)->Some_0.wf(),
    {
        Self::lemma_lookup_index(self.entries@, k);
        let j = choose|j: int|
            0 <= j < self.entries@.len() && (#[trigger] self.entries@[j].0@) == k
                && self.entries@[j].1 == self.spec_get(k)->Some_0;
        assert(self.entries@[j].1.wf());
    }
}

/// Which channel the monitor bus follows.
#[derive(Debug)]
pub struct MonitorConfig {
    pub channel: String,
    pub is_input: bool,
}

/// The event categories a client can subscribe to.
#[derive(Clone, Copy, PartialEq, Eq, Structural, Debug)]
pub enum HookKind {
    OutputVol,
    InputVol,
    OutputBal,
    InputBal,
    OutputCon,
    InputCon,
}

/// One one-shot subscription: a client handle waiting for one event of one
/// category on one channel.
pub struct HookEntry {
    pub kind: HookKind,
    pub name: String,
    pub sub: u64,
}

/// The registry of pending one-shot subscriptions, in registration order.
pub struct HookRegistry {
    hooks: Vec<HookEntry>,
}

impl HookRegistry {
    /// The subscriber handles registered for (kind, name), in order.
    pub closed spec fn spec_subs(s: Seq<HookEntry>, kind: HookKind, name: Seq<char>) -> Seq<u64>
        decreases s.len(),
    {
        if s.len() == 0 {
            Seq::empty()
        } else {
            let rest = Self::spec_subs(s.skip(1), kind, name);
            if s[0].kind == kind && s[0].name@ == name {
                seq![s[0].sub] + rest
            } else {
                rest
            }
        }
    }

    pub closed spec fn subs_for(&self, kind: HookKind, name: Seq<char>) -> Seq<u64> {
        Self::spec_subs(self.hooks@, kind, name)
    }

    pub fn new() -> (r: HookRegistry)
        ensures
            forall|kind: HookKind, name: Seq<char>| (#[trigger] r.subs_for(kind, name)).len() == 0,
    {
        let r = HookRegistry { hooks: Vec::new() };
        proof {
            assert forall|kind: HookKind, name: Seq<char>| (#[trigger] r.subs_for(
                kind,
                name,
            )).len() == 0 by {}
        }
        r
    }

    /// Appending one subscription extends exactly its own key's list.
    proof fn lemma_subs_push(s: Seq<HookEntry>, e: HookEntry, kind: HookKind, name: Seq<char>)
        ensures
            Self::spec_subs(s.push(e), kind, name) == if e.kind == kind && e.name@ == name {
                Self::spec_subs(s, kind, name).push(e.sub)
            } else {
                Self::spec_subs(s, kind, name)
            },
        decreases s.len(),
    {
        if s.len() == 0 {
            assert(s.push(e)[0] == e);
            assert(s.push(e).skip(1) =~= Seq::<HookEntry>::empty());
            assert(Self::spec_subs(s.push(e).skip(1), kind, name) =~= Seq::<u64>::empty());
            assert(Self::spec_subs(s, kind, name) =~= Seq::<u64>::empty());
            if e.kind == kind && e.name@ == name {
                assert(Self::spec_subs(s.push(e), kind, name) =~= seq![e.sub]
                    + Seq::<u64>::empty());
                assert(seq![e.sub] + Seq::<u64>::empty() =~= Self::spec_subs(
                    s,
                    kind,
                    name,
                ).push(e.sub));
            }
        } else {
            Self::lemma_subs_push(s.skip(1), e, kind, name);
            assert(s.push(e)[0] == s[0]);
            assert(s.push(e).skip(1) =~= s.skip(1).push(e));
            let rest_pe = Self::spec_subs(s.skip(1).push(e), kind, name);
            let rest = Self::spec_subs(s.skip(1), kind, name);
            assert(Self::spec_subs(s.push(e).skip(1), kind, name) == rest_pe);
            if s[0].kind == kind && s[0].name@ == name {
                assert(Self::spec_subs(s.push(e), kind, name) =~= seq![s[0].sub] + rest_pe);
                assert(Self::spec_subs(s, kind, name) =~= seq![s[0].sub] + rest);
                if e.kind == kind && e.name@ == name {
                    assert(rest_pe == rest.push(e.sub));
                    assert(seq![s[0].sub] + rest.push(e.sub) =~= (seq![s[0].sub] + rest).push(
                        e.sub,
                    ));
                } else {
                    assert(rest_pe == rest);
                }
            } else {
                assert(Self::spec_subs(s.push(e), kind, name) == rest_pe);
                assert(Self::spec_subs(s, kind, name) == rest);
            }
        }
    }

    /// Register one one-shot subscription.
    pub fn hook(&mut self, kind: HookKind, name: String, sub: u64)
        ensures
            final(self).subs_for(kind, name@) == old(self).subs_for(kind, name@).push(sub),
            forall|k2: HookKind, n2: Seq<char>|
                !(k2 == kind && n2 == name@) ==> (#[trigger] final(self).subs_for(k2, n2)) == old(self).subs_for(k2, n2),
    {
        let ghost s = self.hooks@;
        let ghost nv = name@;
        let e = HookEntry { kind, name, sub };
        let ghost ev = e;
        self.hooks.push(e);
        proof {
            assert forall|k2: HookKind, n2: Seq<char>| #[trigger] self.subs_for(k2, n2) == (if k2
                == kind && n2 == nv {
                Self::spec_subs(s, k2, n2).push(sub)
            } else {
                Self::spec_subs(s, k2, n2)
            }) by {
                Self::lemma_subs_push(s, ev, k2, n2);
            }
        }
    }

    /// Remove and return every subscriber of (kind, name), in registration
    /// order; all other subscriptions stay.
    pub fn fire(&mut self, kind: HookKind, name: &str) -> (fired: Vec<u64>)
        ensures
            fired@ == old(self).subs_for(kind, name@),
            final(self).subs_for(kind, name@).len() == 0,
            forall|k2: HookKind, n2: Seq<char>|
                !(k2 == kind && n2 == name@) ==> (#[trigger] final(self).subs_for(k2, n2)) == old(self).subs_for(k2, n2),
    {
        let mut kept: Vec<HookEntry> = Vec::new();
        let mut fired: Vec<u64> = Vec::new();
        let n = self.hooks.len();
        let ghost s = self.hooks@;
        let ghost nv = name@;
        proof {
            assert(s.skip(0) =~= s);
            assert(fired@ =~= Seq::<u64>::empty());
            assert(fired@ + Self::spec_subs(s, kind, nv) =~= Self::spec_subs(s, kind, nv));
            assert(kept@ =~= Seq::<HookEntry>::empty());
            assert forall|k2: HookKind, n2: Seq<char>|
                (#[trigger] Self::spec_subs(kept@, k2, n2)) + Self::spec_subs(s, k2, n2)
                    =~= Self::spec_subs(s, k2, n2) by {
                assert(Self::spec_subs(kept@, k2, n2) =~= Seq::<u64>::empty());
            }
        }
        let mut i: usize = 0;
        while i < n
            invariant
                n == self.hooks@.len(),
                s == self.hooks@,
                nv == name@,
                i <= n,
                fired@ + Self::spec_subs(s.skip(i as int), kind, nv) =~= Self::spec_subs(
                    s,
                    kind,
                    nv,
                ),
                Self::spec_subs(kept@, kind, nv).len() == 0,
                forall|k2: HookKind, n2: Seq<char>|
                    !(k2 == kind && n2 == nv) ==> (#[trigger] Self::spec_subs(kept@, k2, n2))
                        + Self::spec_subs(s.skip(i as int), k2, n2) =~= Self::spec_subs(s, k2, n2),
            decreases n - i,
        {
            proof {
                let tail = s.skip(i as int);
                assert(tail[0] == s[i as int]);
                assert(tail.skip(1) =~= s.skip(i as int + 1));
            }
            let kind_match = self.hooks[i].kind == kind;
            let name_match = crate::utils::str_eq(self.hooks[i].name.as_str(), name);
            if kind_match && name_match {
                let sub = self.hooks[i].sub;
                let ghost fired0 = fired@;
                fired.push(sub);
                proof {
                    let rest = Self::spec_subs(s.skip(i as int + 1), kind, nv);
                    assert(Self::spec_subs(s.skip(i as int), kind, nv) =~= seq![s[i as int].sub]
                        + rest);
                    assert(fired0.push(sub) + rest =~= fired0 + (seq![sub] + rest));
                    assert forall|k2: HookKind, n2: Seq<char>|
                        !(k2 == kind && n2 == nv) implies (#[trigger] Self::spec_subs(
                        kept@,
                        k2,
                        n2,
                    )) + Self::spec_subs(s.skip(i as int + 1), k2, n2) =~= Self::spec_subs(
                        s,
                        k2,
                        n2,
                    ) by {
                        assert(!(s[i as int].kind == k2 && s[i as int].name@ == n2));
                        assert(Self::spec_subs(s.skip(i as int), k2, n2) =~= Self::spec_subs(
                            s.skip(i as int + 1),
                            k2,
                            n2,
                        ));
                    }
                }
            } else {
                let e = HookEntry {
                    kind: self.hooks[i].kind,
                    name: self.hooks[i].name.clone(),
                    sub: self.hooks[i].sub,
                };
                let ghost ev = e;
                let ghost kept0 = kept@;
                proof {
                    assert(ev.kind == s[i as int].kind && ev.name@ == s[i as int].name@ && ev.sub
                        == s[i as int].sub);
                    assert(!(ev.kind == kind && ev.name@ == nv));
                }
                kept.push(e);
                proof {
                    assert(Self::spec_subs(kept@, kind, nv).len() == 0) by {
                        Self::lemma_subs_push(kept0, ev, kind, nv);
                    }
                    assert forall|k2: HookKind, n2: Seq<char>|
                        !(k2 == kind && n2 == nv) implies (#[trigger] Self::spec_subs(
                        kept@,
                        k2,
                        n2,
                    )) + Self::spec_subs(s.skip(i as int + 1), k2, n2) =~= Self::spec_subs(
                        s,
                        k2,
                        n2,
                    ) by {
                        Self::lemma_subs_push(kept0, ev, k2, n2);
                        let rest = Self::spec_subs(s.skip(i as int + 1), k2, n2);
                        if s[i as int].kind == k2 && s[i as int].name@ == n2 {
                            assert(Self::spec_subs(s.skip(i as int), k2, n2)
                                =~= seq![s[i as int].sub] + rest);
                            assert(Self::spec_subs(kept@, k2, n2) == Self::spec_subs(
                                kept0,
                                k2,
                                n2,
                            ).push(s[i as int].sub));
                            assert(Self::spec_subs(kept0, k2, n2).push(s[i as int].sub) + rest
                                =~= Self::spec_subs(kept0, k2, n2) + (seq![s[i as int].sub]
                                + rest));
                        } else {
                            assert(Self::spec_subs(s.skip(i as int), k2, n2) =~= rest);
                            assert(Self::spec_subs(kept@, k2, n2) == Self::spec_subs(
                                kept0,
                                k2,
                                n2,
                            ));
                        }
                    }
                }
            }
            i = i + 1;
        }
        proof {
            assert(s.skip(n as int) =~= Seq::<HookEntry>::empty());
            assert(fired@ =~= Self::spec_subs(s, kind, nv));
            assert forall|k2: HookKind, n2: Seq<char>|
                !(k2 == kind && n2 == nv) implies (#[trigger] Self::spec_subs(kept@, k2, n2))
                    =~= Self::spec_subs(s, k2, n2) by {
                assert(Self::spec_subs(kept@, k2, n2) + Self::spec_subs(
                    s.skip(n as int),
                    k2,
                    n2,
                ) =~= Self::spec_subs(s, k2, n2));
                assert(Self::spec_subs(kept@, k2, n2) + Seq::<u64>::empty() =~= Self::spec_subs(
                    kept@,
                    k2,
                    n2,
                ));
            }
        }
        self.hooks = kept;
        fired
    }
}

/// One channel's full descriptor, as reported to protocol clients. `vol` and
/// `bal` are in the stored fixed-point units (hundredths of a percent and
/// hundredths of a balance unit).
pub struct PortInfo {
    pub port: String,
    pub is_output: bool,
    pub vol: i64,
    pub bal: i64,
    pub ismono: bool,
    pub cons: Vec<String>,
}

impl PortInfo {
    /// A fresh descriptor with the same contents.
    pub fn duplicate(&self) -> (r: PortInfo)
        ensures
            r.port@ == self.port@,
            r.is_output == self.is_output,
            r.vol == self.vol,
            r.bal == self.bal,
            r.ismono == self.ismono,
            r.cons@.len() == self.cons@.len(),
            forall|m: int| 0 <= m < r.cons@.len() ==> (#[trigger] r.cons@[m]@) == self.cons@[m]@,
    {
        let mut cons: Vec<String> = Vec::new();
        let n = self.cons.len();
        for m in 0..n
            invariant
                n == self.cons@.len(),
                cons@.len() == m,
                forall|a: int| 0 <= a < m ==> (#[trigger] cons@[a]@) == self.cons@[a]@,
        {
            cons.push(self.cons[m].clone());
        }
        PortInfo {
            port: self.port.clone(),
            is_output: self.is_output,
            vol: self.vol,
            bal: self.bal,
            ismono: self.ismono,
            cons,
        }
    }
}

/// The payload pushed to a one-shot subscriber when its event fires.
pub enum NoticeBody {
    Info(PortInfo),
    Connection { output_name: String, input_name: String, connecting: bool },
}

/// One pending push: which subscriber handle receives which payload.
pub struct Notice {
    pub sub: u64,
    pub body: NoticeBody,
}

/// The mixer's whole shared state: bus wiring, per-channel settings for
/// output buses and input channels, the monitor selection, and the pending
/// one-shot subscriptions.
pub struct MixerConfig {
    pub connections: ConnectionGraph,
    pub outputs: PortMap,
    pub inputs: PortMap,
    pub monitor: MonitorConfig,
    pub mon_hooks: HookRegistry,
}

impl MixerConfig {
    /// Parts well formed, and the monitor always references an existing
    /// channel.
    pub open spec fn wf(&self) -> bool {
        &&& self.connections.wf()
        &&& self.outputs.wf()
        &&& self.inputs.wf()
        &&& self.spec_port_exists(!self.monitor.is_input, self.monitor.channel@)
    }

    pub open spec fn spec_port_exists(&self, is_output: bool, name: Seq<char>) -> bool {
        if is_output {
            self.outputs.contains_name(name)
        } else {
            self.inputs.contains_name(name)
        }
    }

    pub open spec fn spec_cfg(&self, is_output: bool, name: Seq<char>) -> Option<PortConfig> {
        if is_output {
            self.outputs.spec_get(name)
        } else {
            self.inputs.spec_get(name)
        }
    }

    /// The pending subscribers of one event category on one channel.
    pub open spec fn spec_subs(&self, kind: HookKind, name: Seq<char>) -> Seq<u64> {
        self.mon_hooks.subs_for(kind, name)
    }

    /// Assemble the mixer state; the monitor selection must name an existing
    /// channel.
    pub fn new(
        connections: ConnectionGraph,
        outputs: PortMap,
        inputs: PortMap,
        monitor: MonitorConfig,
    ) -> (r: Result<MixerConfig, ()>)
        requires
            connections.wf(),
            outputs.wf(),
            inputs.wf(),
        ensures
            match r {
                Ok(m) => m.wf() && m.connections == connections && m.outputs == outputs && m.inputs
                    == inputs && m.monitor.channel@ == monitor.channel@ && m.monitor.is_input
                    == monitor.is_input && (forall|kind: HookKind, n2: Seq<char>| (
                #[trigger] m.spec_subs(kind, n2)).len() == 0),
                Err(()) => !(if monitor.is_input {
                    inputs.contains_name(monitor.channel@)
                } else {
                    outputs.contains_name(monitor.channel@)
                }),
            },
    {
        let present = if monitor.is_input {
            inputs.contains(monitor.channel.as_str())
        } else {
            outputs.contains(monitor.channel.as_str())
        };
        if !present {
            return Err(());
        }
        Ok(MixerConfig { connections, outputs, inputs, monitor, mon_hooks: HookRegistry::new() })
    }

    pub fn port_exists(&self, is_output: bool, name: &String) -> (r: bool)
        ensures
            r == self.spec_port_exists(is_output, name@),
    {
        if is_output {
            self.outputs.contains(name.as_str())
        } else {
            self.inputs.contains(name.as_str())
        }
    }

    pub fn get_mono(&self, is_output: bool, name: &String) -> (r: Result<bool, ()>)
        ensures
            match r {
                Ok(m) => self.spec_cfg(is_output, name@) is Some && m == self.spec_cfg(
                    is_output,
                    name@,
                )->Some_0.mono,
                Err(()) => self.spec_cfg(is_output, name@) is None,
            },
    {
        let c = if is_output {
            self.outputs.get(name.as_str())
        } else {
            self.inputs.get(name.as_str())
        };
        match c {
            Some(c) => Ok(c.mono),
            None => Err(()),
        }
    }

    /// The linear multiplier of one channel: its stored volume over 10_000.
    pub fn get_vol(&self, is_output: bool, name: &String) -> (r: Result<Gain, ()>)
        requires
            self.wf(),
        ensures
            match r {
                Ok(g) => self.spec_cfg(is_output, name@) is Some && g == self.spec_cfg(
                    is_output,
                    name@,
                )->Some_0.spec_vol_gain() && g.vol1_wf(),
                Err(()) => self.spec_cfg(is_output, name@) is None,
            },
    {
        let c = if is_output {
            self.outputs.get(name.as_str())
        } else {
            self.inputs.get(name.as_str())
        };
        match c {
            Some(c) => {
                proof {
                    if is_output {
                        self.outputs.lemma_get_wf(name@);
                    } else {
                        self.inputs.lemma_get_wf(name@);
                    }
                }
                Ok(c.get_vol())
            },
            None => Err(()),
        }
    }

    /// One channel's stored balance, in hundredths.
    pub fn get_bal(&self, is_output: bool, name: &String) -> (r: Result<i64, ()>)
        ensures
            match r {
                Ok(b) => self.spec_cfg(is_output, name@) is Some && b == self.spec_cfg(
                    is_output,
                    name@,
                )->Some_0.balance,
                Err(()) => self.spec_cfg(is_output, name@) is None,
            },
    {
        let c = if is_output {
            self.outputs.get(name.as_str())
        } else {
            self.inputs.get(name.as_str())
        };
        match c {
            Some(c) => Ok(c.balance),
            None => Err(()),
        }
    }

    /// One channel's left/right balance multipliers.
    pub fn get_bal_pair(&self, is_output: bool, name: &String) -> (r: Result<(Gain, Gain), ()>)
        requires
            self.wf(),
        ensures
            match r {
                Ok(p) => self.spec_cfg(is_output, name@) is Some && p == self.spec_cfg(
                    is_output,
                    name@,
                )->Some_0.spec_bal_pair() && p.0.bal1_wf() && p.1.bal1_wf(),
                Err(()) => self.spec_cfg(is_output, name@) is None,
            },
    {
        let c = if is_output {
            self.outputs.get(name.as_str())
        } else {
            self.inputs.get(name.as_str())
        };
        match c {
            Some(c) => {
                proof {
                    if is_output {
                        self.outputs.lemma_get_wf(name@);
                    } else {
                        self.inputs.lemma_get_wf(name@);
                    }
                }
                Ok(c.get_balance_pair())
            },
            None => Err(()),
        }
    }

    /// The names wired to a channel: for an output, its inputs; for an input,
    /// the outputs it feeds.
    pub fn get_connected(&self, is_output: bool, name: &String) -> (r: Result<Vec<String>, ()>)
        requires
            self.wf(),
        ensures
            r is Ok <==> self.spec_port_exists(is_output, name@),
            r is Ok && is_output ==> self.connections.lists_inputs_of(name@, r->Ok_0@),
            r is Ok && !is_output ==> self.connections.lists_outputs_of(name@, r->Ok_0@),
    {
        if !self.port_exists(is_output, name) {
            return Err(());
        }
        if is_output {
            Ok(self.connections.inputs_of(name.as_str()))
        } else {
            Ok(self.connections.outputs_of(name.as_str()))
        }
    }

    /// The full descriptor of one channel.
    pub fn get_port_info(&self, is_output: bool, name: &String) -> (r: Result<PortInfo, ()>)
        requires
            self.wf(),
        ensures
            match r {
                Ok(info) => {
                    &&& self.spec_cfg(is_output, name@) is Some
                    &&& info.port@ == name@
                    &&& info.is_output == is_output
                    &&& info.vol == self.spec_cfg(is_output, name@)->Some_0.vol
                    &&& info.bal == self.spec_cfg(is_output, name@)->Some_0.balance
                    &&& info.ismono == self.spec_cfg(is_output, name@)->Some_0.mono
                    &&& is_output ==> self.connections.lists_inputs_of(name@, info.cons@)
                    &&& !is_output ==> self.connections.lists_outputs_of(name@, info.cons@)
                },
                Err(()) => self.spec_cfg(is_output, name@) is None,
            },
    {
        let c = if is_output {
            self.outputs.get(name.as_str())
        } else {
            self.inputs.get(name.as_str())
        };
        match c {
            Some(c) => {
                let cons = match self.get_connected(is_output, name) {
                    Ok(cons) => cons,
                    Err(()) => {
                        proof {
                            assert(false);
                        }
                        return Err(());
                    },
                };
                Ok(
                    PortInfo {
                        port: name.clone(),
                        is_output,
                        vol: c.vol,
                        bal: c.balance,
                        ismono: c.mono,
                        cons,
                    },
                )
            },
            None => Err(()),
        }
    }

    /// Register a one-shot subscription of `sub` for one event category on
    /// one channel name.
    pub fn hook(&mut self, kind: HookKind, name: String, sub: u64)
        ensures
            final(self).spec_subs(kind, name@) == old(self).spec_subs(kind, name@).push(sub),
            forall|k2: HookKind, n2: Seq<char>|
                !(k2 == kind && n2 == name@) ==> (#[trigger] final(self).spec_subs(k2, n2)) == old(self).spec_subs(k2, n2),
            final(self).connections == old(self).connections,
            final(self).outputs == old(self).outputs,
            final(self).inputs == old(self).inputs,
            final(self).monitor == old(self).monitor,
    {
        self.mon_hooks.hook(kind, name, sub);
    }

    /// The event category of a volume change.
    pub open spec fn vol_kind(is_output: bool) -> HookKind {
        if is_output {
            HookKind::OutputVol
        } else {
            HookKind::InputVol
        }
    }

    /// The event category of a balance change.
    pub open spec fn bal_kind(is_output: bool) -> HookKind {
        if is_output {
            HookKind::OutputBal
        } else {
            HookKind::InputBal
        }
    }

    /// `notices` pushes the descriptor of the changed channel to exactly the
    /// subscribers `subs`, in order.
    pub open spec fn spec_info_notices(
        notices: Seq<Notice>,
        subs: Seq<u64>,
        name: Seq<char>,
        vol: int,
        bal: int,
    ) -> bool {
        &&& notices.len() == subs.len()
        &&& forall|m: int|
            0 <= m < notices.len() ==> (#[trigger] notices[m]).sub == subs[m]
                && notices[m].body is Info && notices[m].body->Info_0.port@ == name
                && notices[m].body->Info_0.vol == vol && notices[m].body->Info_0.bal == bal
    }

    /// `notices` pushes the (dis)connection event to exactly the subscribers
    /// `osubs` of the output followed by the subscribers `isubs` of the
    /// input, in order.
    pub open spec fn spec_con_notices(
        notices: Seq<Notice>,
        osubs: Seq<u64>,
        isubs: Seq<u64>,
        oname: Seq<char>,
        iname: Seq<char>,
        connecting: bool,
    ) -> bool {
        &&& notices.len() == osubs.len() + isubs.len()
        &&& forall|m: int|
            0 <= m < notices.len() ==> (#[trigger] notices[m]).sub == (if m < osubs.len() {
                osubs[m]
            } else {
                isubs[m - osubs.len()]
            }) && notices[m].body is Connection && notices[m].body->Connection_output_name@
                == oname && notices[m].body->Connection_input_name@ == iname
                && notices[m].body->Connection_connecting == connecting
    }

    /// Set one channel's volume (in hundredths of a percent) and fire the
    /// pending volume subscriptions of that channel, handing back who to
    /// notify with which descriptor.
    pub fn set_vol(&mut self, is_output: bool, name: &String, vol: i64) -> (r: Result<
        Vec<Notice>,
        (),
    >)
        requires
            old(self).wf(),
            0 <= vol <= VOL_MAX,
        ensures
            r is Ok <==> old(self).spec_port_exists(is_output, name@),
            r is Err ==> *final(self) == *old(self),
            r is Ok ==> {
                &&& final(self).wf()
                &&& final(self).spec_cfg(is_output, name@) == Some(
                    PortConfig {
                        vol,
                        balance: old(self).spec_cfg(is_output, name@)->Some_0.balance,
                        mono: old(self).spec_cfg(is_output, name@)->Some_0.mono,
                    },
                )
                &&& forall|d: bool, k: Seq<char>|
                    !(d == is_output && k == name@) ==> (#[trigger] final(self).spec_cfg(d, k))
                        == old(self).spec_cfg(d, k)
                &&& final(self).connections == old(self).connections
                &&& final(self).monitor == old(self).monitor
                &&& final(self).spec_subs(Self::vol_kind(is_output), name@).len() == 0
                &&& forall|k2: HookKind, n2: Seq<char>|
                    !(k2 == Self::vol_kind(is_output) && n2 == name@) ==> (#[trigger] final(self).spec_subs(k2, n2)) == old(self).spec_subs(k2, n2)
                &&& Self::spec_info_notices(
                    r->Ok_0@,
                    old(self).spec_subs(Self::vol_kind(is_output), name@),
                    name@,
                    vol as int,
                    old(self).spec_cfg(is_output, name@)->Some_0.balance as int,
                )
            },
    {
        let c = if is_output {
            self.outputs.get(name.as_str())
        } else {
            self.inputs.get(name.as_str())
        };
        let c = match c {
            Some(c) => c,
            None => {
                return Err(());
            },
        };
        let c2 = PortConfig { vol, balance: c.balance, mono: c.mono };
        proof {
            if is_output {
                self.outputs.lemma_get_wf(name@);
            } else {
                self.inputs.lemma_get_wf(name@);
            }
        }
        if is_output {
            self.outputs.insert(name.as_str(), c2);
        } else {
            self.inputs.insert(name.as_str(), c2);
        }
        let kind = if is_output {
            HookKind::OutputVol
        } else {
            HookKind::InputVol
        };
        let subs = self.mon_hooks.fire(kind, name.as_str());
        let info = match self.get_port_info(is_output, name) {
            Ok(info) => info,
            Err(()) => {
                proof {
                    assert(false);
                }
                return Err(());
            },
        };
        let notices = Self::info_notices(&subs, &info);
        proof {
            assert(Self::spec_info_notices(
                notices@,
                old(self).spec_subs(Self::vol_kind(is_output), name@),
                name@,
                vol as int,
                old(self).spec_cfg(is_output, name@)->Some_0.balance as int,
            ));
        }
        Ok(notices)
    }

    /// Set one channel's balance (in hundredths of a unit) and fire the
    /// pending balance subscriptions of that channel.
    pub fn set_bal(&mut self, is_output: bool, name: &String, balance: i64) -> (r: Result<
        Vec<Notice>,
        (),
    >)
        requires
            old(self).wf(),
            -BAL_MAX <= balance <= BAL_MAX,
        ensures
            r is Ok <==> old(self).spec_port_exists(is_output, name@),
            r is Err ==> *final(self) == *old(self),
            r is Ok ==> {
                &&& final(self).wf()
                &&& final(self).spec_cfg(is_output, name@) == Some(
                    PortConfig {
                        vol: old(self).spec_cfg(is_output, name@)->Some_0.vol,
                        balance,
                        mono: old(self).spec_cfg(is_output, name@)->Some_0.mono,
                    },
                )
                &&& forall|d: bool, k: Seq<char>|
                    !(d == is_output && k == name@) ==> (#[trigger] final(self).spec_cfg(d, k))
                        == old(self).spec_cfg(d, k)
                &&& final(self).connections == old(self).connections
                &&& final(self).monitor == old(self).monitor
                &&& final(self).spec_subs(Self::bal_kind(is_output), name@).len() == 0
                &&& forall|k2: HookKind, n2: Seq<char>|
                    !(k2 == Self::bal_kind(is_output) && n2 == name@) ==> (#[trigger] final(self).spec_subs(k2, n2)) == old(self).spec_subs(k2, n2)
                &&& Self::spec_info_notices(
                    r->Ok_0@,
                    old(self).spec_subs(Self::bal_kind(is_output), name@),
                    name@,
                    old(self).spec_cfg(is_output, name@)->Some_0.vol as int,
                    balance as int,
                )
            },
    {
        let c = if is_output {
            self.outputs.get(name.as_str())
        } else {
            self.inputs.get(name.as_str())
        };
        let c = match c {
            Some(c) => c,
            None => {
                return Err(());
            },
        };
        let c2 = PortConfig { vol: c.vol, balance, mono: c.mono };
        proof {
            if is_output {
                self.outputs.lemma_get_wf(name@);
            } else {
                self.inputs.lemma_get_wf(name@);
            }
        }
        if is_output {
            self.outputs.insert(name.as_str(), c2);
        } else {
            self.inputs.insert(name.as_str(), c2);
        }
        let kind = if is_output {
            HookKind::OutputBal
        } else {
            HookKind::InputBal
        };
        let subs = self.mon_hooks.fire(kind, name.as_str());
        let info = match self.get_port_info(is_output, name) {
            Ok(info) => info,
            Err(()) => {
                proof {
                    assert(false);
                }
                return Err(());
            },
        };
        let notices = Self::info_notices(&subs, &info);
        proof {
            assert(Self::spec_info_notices(
                notices@,
                old(self).spec_subs(Self::bal_kind(is_output), name@),
                name@,
                old(self).spec_cfg(is_output, name@)->Some_0.vol as int,
                balance as int,
            ));
        }
        Ok(notices)
    }

    /// One descriptor push per subscriber, in order.
    fn info_notices(subs: &Vec<u64>, info: &PortInfo) -> (r: Vec<Notice>)
        ensures
            r@.len() == subs@.len(),
            forall|m: int|
                0 <= m < r@.len() ==> (#[trigger] r@[m]).sub == subs@[m] && r@[m].body is Info
                    && r@[m].body->Info_0.port@ == info.port@ && r@[m].body->Info_0.vol == info.vol
                    && r@[m].body->Info_0.bal == info.bal && r@[m].body->Info_0.ismono
                    == info.ismono,
    {
        let mut r: Vec<Notice> = Vec::new();
        let n = subs.len();
        for m in 0..n
            invariant
                n == subs@.len(),
                r@.len() == m,
                forall|a: int|
                    0 <= a < m ==> (#[trigger] r@[a]).sub == subs@[a] && r@[a].body is Info
                        && r@[a].body->Info_0.port@ == info.port@ && r@[a].body->Info_0.vol
                        == info.vol && r@[a].body->Info_0.bal == info.bal
                        && r@[a].body->Info_0.ismono == info.ismono,
        {
            r.push(Notice { sub: subs[m], body: NoticeBody::Info(info.duplicate()) });
        }
        r
    }

    /// One connection-event push per subscriber: the output's subscribers
    /// first, then the input's.
    fn con_notices(osubs: &Vec<u64>, isubs: &Vec<u64>, oname: &str, iname: &str, connecting: bool) -> (r: Vec<
        Notice,
    >)
        ensures
            Self::spec_con_notices(r@, osubs@, isubs@, oname@, iname@, connecting),
    {
        let mut r: Vec<Notice> = Vec::new();
        let no = osubs.len();
        for m in 0..no
            invariant
                no == osubs@.len(),
                r@.len() == m,
                forall|a: int|
                    0 <= a < m ==> (#[trigger] r@[a]).sub == osubs@[a] && r@[a].body is Connection
                        && r@[a].body->Connection_output_name@ == oname@
                        && r@[a].body->Connection_input_name@ == iname@
                        && r@[a].body->Connection_connecting == connecting,
        {
            r.push(
                Notice {
                    sub: osubs[m],
                    body: NoticeBody::Connection {
                        output_name: oname.to_owned(),
                        input_name: iname.to_owned(),
                        connecting,
                    },
                },
            );
        }
        let ni = isubs.len();
        for m in 0..ni
            invariant
                no == osubs@.len(),
                ni == isubs@.len(),
                r@.len() == no + m,
                forall|a: int|
                    0 <= a < no + m ==> (#[trigger] r@[a]).sub == (if a < no {
                        osubs@[a]
                    } else {
                        isubs@[a - no]
                    }) && r@[a].body is Connection && r@[a].body->Connection_output_name@ == oname@
                        && r@[a].body->Connection_input_name@ == iname@
                        && r@[a].body->Connection_connecting == connecting,
        {
            r.push(
                Notice {
                    sub: isubs[m],
                    body: NoticeBody::Connection {
                        output_name: oname.to_owned(),
                        input_name: iname.to_owned(),
                        connecting,
                    },
                },
            );
        }
        r
    }

    /// Wire or unwire one mixer pair and fire the pending connection
    /// subscriptions on both ends.
    pub fn connect(&mut self, connecting: bool, oname: &str, iname: &str) -> (r: Result<
        Vec<Notice>,
        (),
    >)
        requires
            old(self).wf(),
        ensures
            r is Ok,
            final(self).wf(),
            forall|o2: Seq<char>, i2: Seq<char>|
                #[trigger] final(self).connections.spec_is_connected(o2, i2) == if o2 == oname@
                    && i2 == iname@ {
                    connecting
                } else {
                    old(self).connections.spec_is_connected(o2, i2)
                },
            final(self).outputs == old(self).outputs,
            final(self).inputs == old(self).inputs,
            final(self).monitor == old(self).monitor,
            final(self).spec_subs(HookKind::OutputCon, oname@).len() == 0,
            final(self).spec_subs(HookKind::InputCon, iname@).len() == 0,
            forall|k2: HookKind, n2: Seq<char>|
                !(k2 == HookKind::OutputCon && n2 == oname@) && !(k2 == HookKind::InputCon && n2
                    == iname@) ==> (#[trigger] final(self).spec_subs(k2, n2)) == old(self).spec_subs(k2, n2),
            r is Ok ==> Self::spec_con_notices(
                r->Ok_0@,
                old(self).spec_subs(HookKind::OutputCon, oname@),
                old(self).spec_subs(HookKind::InputCon, iname@),
                oname@,
                iname@,
                connecting,
            ),
    {
        crate::utils::Connections::connect(&mut self.connections, connecting, oname, iname);
        proof {
            assert forall|o2: Seq<char>, i2: Seq<char>|
                #[trigger] self.connections.spec_is_connected(o2, i2) == (if o2 == oname@ && i2
                    == iname@ {
                    connecting
                } else {
                    old(self).connections.spec_is_connected(o2, i2)
                }) by {
                assert(crate::utils::Connections::connected(&self.connections, o2, i2)
                    == self.connections.spec_is_connected(o2, i2));
                assert(crate::utils::Connections::connected(&old(self).connections, o2, i2)
                    == old(self).connections.spec_is_connected(o2, i2));
            }
        }
        let osubs = self.mon_hooks.fire(HookKind::OutputCon, oname);
        let isubs = self.mon_hooks.fire(HookKind::InputCon, iname);
        let notices = Self::con_notices(&osubs, &isubs, oname, iname, connecting);
        Ok(notices)
    }

    /// Point the monitor bus at an existing channel.
    pub fn set_mon(&mut self, is_output: bool, name: &String) -> (r: Result<(), ()>)
        requires
            old(self).wf(),
        ensures
            match r {
                Ok(()) => {
                    &&& old(self).spec_port_exists(is_output, name@)
                    &&& final(self).wf()
                    &&& final(self).monitor.channel@ == name@
                    &&& final(self).monitor.is_input == !is_output
                    &&& final(self).connections == old(self).connections
                    &&& final(self).outputs == old(self).outputs
                    &&& final(self).inputs == old(self).inputs
                    &&& forall|k2: HookKind, n2: Seq<char>|
                        (#[trigger] final(self).spec_subs(k2, n2)) == old(self).spec_subs(k2, n2)
                },
                Err(()) => !old(self).spec_port_exists(is_output, name@) && *final(self) == *old(self),
            },
    {
        if !self.port_exists(is_output, name) {
            return Err(());
        }
        self.monitor.channel = name.clone();
        self.monitor.is_input = !is_output;
        Ok(())
    }

    pub fn is_connected(&self, oname: &str, iname: &str) -> (r: bool)
        requires
            self.wf(),
        ensures
            r == self.connections.spec_is_connected(oname@, iname@),
    {
        crate::utils::Connections::is_connected(&self.connections, oname, iname)
    }
}

/// Setting a channel's volume to `v` and reading it back yields the linear
/// multiplier `v / 10_000` — the configured percentage divided by one
/// hundred — exactly.
pub proof fn lemma_volume_round_trip(
    pre: MixerConfig,
    post: MixerConfig,
    is_output: bool,
    name: Seq<char>,
    v: i64,
)
    requires
        pre.spec_port_exists(is_output, name),
        post.spec_cfg(is_output, name) == Some(
            PortConfig {
                vol: v,
                balance: pre.spec_cfg(is_output, name)->Some_0.balance,
                mono: pre.spec_cfg(is_output, name)->Some_0.mono,
            },
        ),
    ensures
        post.spec_cfg(is_output, name)->Some_0.spec_vol_gain() == (Gain {
            num: v as i128,
            den: crate::gain::VOL_DEN as i128,
        }),
{
}

/// A `monitor` registration followed by one matching `set` fires exactly one
/// push, to that subscriber, with the updated volume, and leaves the
/// subscription list for that (category, channel) pair empty.
pub proof fn lemma_monitor_fires_once(
    m0: MixerConfig,
    m1: MixerConfig,
    m2: MixerConfig,
    is_output: bool,
    name: Seq<char>,
    sub: u64,
    v: int,
    bal: int,
    notices: Seq<Notice>,
)
    requires
        m0.spec_subs(MixerConfig::vol_kind(is_output), name).len() == 0,
        m1.spec_subs(MixerConfig::vol_kind(is_output), name) == m0.spec_subs(
            MixerConfig::vol_kind(is_output),
            name,
        ).push(sub),
        MixerConfig::spec_info_notices(
            notices,
            m1.spec_subs(MixerConfig::vol_kind(is_output), name),
            name,
            v,
            bal,
        ),
        m2.spec_subs(MixerConfig::vol_kind(is_output), name).len() == 0,
    ensures
        notices.len() == 1,
        notices[0].sub == sub,
        notices[0].body is Info,
        notices[0].body->Info_0.port@ == name,
        notices[0].body->Info_0.vol == v,
        m2.spec_subs(MixerConfig::vol_kind(is_output), name).len() == 0,
{
    let subs = m1.spec_subs(MixerConfig::vol_kind(is_output), name);
    assert(subs.len() == 1);
    assert(subs[0] == sub);
}

/// The whole configuration tree: the transport-level desired wiring used by
/// the reconciler, and the mixer state.
pub struct Config {
    pub connections: ConnectionGraph,
    pub mixer: MixerConfig,
}

impl Config {
    pub open spec fn wf(&self) -> bool {
        &&& self.connections.wf()
        &&& self.mixer.wf()
    }
}

} // verus!
