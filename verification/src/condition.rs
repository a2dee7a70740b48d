use vstd::prelude::*;

verus! {

/// The indices of the currently active buffs, kept in ascending
/// buff-index order — the order in which buffs compete to drive a
/// condition.
pub struct ActiveSet {
    members: Vec<usize>,
}

/// `s` is strictly ascending (so also free of repeats).
pub open spec fn strictly_ascending(s: Seq<usize>) -> bool {
    forall|i: int, j: int| 0 <= i < j < s.len() ==> s[i] < s[j]
}

impl View for ActiveSet {
    type V = Set<usize>;

    closed spec fn view(&self) -> Set<usize> {
        Set::new(|x: usize| self.members@.contains(x))
    }
}

impl ActiveSet {
    /// Well-formedness: the members are strictly ascending.
    pub closed spec fn wf(&self) -> bool {
        strictly_ascending(self.members@)
    }

    /// No active buff.
    pub fn new() -> (a: ActiveSet)
        ensures
            a.wf(),
            a@ == Set::<usize>::empty(),
    {
        let a = ActiveSet { members: Vec::new() };
        assert(a@ =~= Set::<usize>::empty());
        a
    }

    /// The active buffs in ascending order.
    pub fn members(&self) -> (v: Vec<usize>)
        requires
            self.wf(),
        ensures
            strictly_ascending(v@),
            forall|x: usize| #[trigger] v@.contains(x) <==> self@.contains(x),
    {
        self.members.clone()
    }

    /// Whether buff `b` is active.
    pub fn contains(&self, b: usize) -> (r: bool)
        ensures
            r == self@.contains(b),
    {
        let mut k: usize = 0;
        while k < self.members.len()
            invariant
                0 <= k <= self.members@.len(),
                forall|j: int| 0 <= j < k ==> self.members@[j] != b,
            decreases self.members@.len() - k,
        {
            if self.members[k] == b {
                assert(self.members@.contains(b));
                return true;
            }
            k = k + 1;
        }
        false
    }

    /// Buff `b` became active.
    pub fn insert(&mut self, b: usize)
        requires
            old(self).wf(),
        ensures
            final(self).wf(),
            final(self)@ == old(self)@.insert(b),
    {
        let ghost s = self.members@;
        let n = self.members.len();
        let mut k: usize = 0;
        while k < n && self.members[k] < b
            invariant
                s == self.members@,
                n == s.len(),
                0 <= k <= n,
                forall|j: int| 0 <= j < k ==> s[j] < b,
            decreases n - k,
        {
            k = k + 1;
        }
        if k < n && self.members[k] == b {
            assert(self@ =~= old(self)@.insert(b)) by {
                assert(s.contains(b));
            }
            return;
        }
        self.members.insert(k, b);
        proof {
            let t = self.members@;
            assert(t == s.insert(k as int, b));
            assert forall|i: int, j: int| 0 <= i < j < t.len() implies t[i] < t[j] by {
                if j < k {
                    assert(t[i] == s[i] && t[j] == s[j]);
                } else if j == k {
                    assert(t[i] == s[i]);
                } else if i == k {
                    assert(t[j] == s[j - 1]);
                    assert(s[k as int] > b);
                    if j - 1 > k {
                        assert(s[k as int] < s[j - 1]);
                    }
                } else if i < k {
                    assert(t[i] == s[i] && t[j] == s[j - 1]);
                    assert(s[k as int] > b);
                    if j - 1 > k {
                        assert(s[k as int] < s[j - 1]);
                    }
                } else {
                    assert(t[i] == s[i - 1] && t[j] == s[j - 1]);
                }
            }
            assert forall|x: usize| #[trigger] t.contains(x) <==> (s.contains(x) || x == b) by {
                if t.contains(x) {
                    let i = choose|i: int| 0 <= i < t.len() && t[i] == x;
                    if i < k {
                        assert(s[i] == x);
                    } else if i > k {
                        assert(s[i - 1] == x);
                    }
                }
                if s.contains(x) {
                    let i = choose|i: int| 0 <= i < s.len() && s[i] == x;
                    if i < k {
                        assert(t[i] == x);
                    } else {
                        assert(t[i + 1] == x);
                    }
                }
                if x == b {
                    assert(t[k as int] == x);
                }
            }
            assert(self@ =~= old(self)@.insert(b));
        }
    }

    /// Buff `b` became inactive.
    pub fn remove(&mut self, b: usize)
        requires
            old(self).wf(),
        ensures
            final(self).wf(),
            final(self)@ == old(self)@.remove(b),
    {
        let ghost s = self.members@;
        let n = self.members.len();
        let mut k: usize = 0;
        while k < n && self.members[k] != b
            invariant
                s == self.members@,
                n == s.len(),
                0 <= k <= n,
                forall|j: int| 0 <= j < k ==> s[j] != b,
            decreases n - k,
        {
            k = k + 1;
        }
        if k == n {
            assert(self@ =~= old(self)@.remove(b));
            return;
        }
        self.members.remove(k);
        proof {
            let t = self.members@;
            assert(t == s.remove(k as int));
            assert forall|i: int, j: int| 0 <= i < j < t.len() implies t[i] < t[j] by {
                let a = if i < k { i } else { i + 1 };
                let c = if j < k { j } else { j + 1 };
                assert(t[i] == s[a] && t[j] == s[c]);
            }
            assert forall|x: usize| #[trigger] t.contains(x) <==> (s.contains(x) && x != b) by {
                if t.contains(x) {
                    let i = choose|i: int| 0 <= i < t.len() && t[i] == x;
                    let a = if i < k { i } else { i + 1 };
                    assert(s[a] == x);
                    if a < k {
                        assert(s[a] < s[k as int]);
                    } else {
                        assert(s[k as int] < s[a]);
                    }
                }
                if s.contains(x) && x != b {
                    let i = choose|i: int| 0 <= i < s.len() && s[i] == x;
                    if i < k {
                        assert(t[i] == x);
                    } else {
                        assert(i != k);
                        assert(t[i - 1] == x);
                    }
                }
            }
            assert(self@ =~= old(self)@.remove(b));
        }
    }

    /// The active buff that drives a condition: the lowest-indexed active
    /// buff `b` with `drives[b]`, or `None` when no active buff drives it
    /// (the scenario's own uptime then applies).
    pub fn driver(&self, drives: &Vec<bool>) -> (r: Option<usize>)
        requires
            self.wf(),
        ensures
            r matches Some(b) ==> self@.contains(b) && b < drives@.len() && drives@[b as int]
                && forall|c: usize|
                #[trigger] self@.contains(c) && c < drives@.len() && drives@[c as int] ==> b <= c,
            r is None ==> forall|c: usize|
                #[trigger] self@.contains(c) && c < drives@.len() ==> !drives@[c as int],
    {
        let s = &self.members;
        let mut k: usize = 0;
        while k < s.len()
            invariant
                s@ == self.members@,
                strictly_ascending(s@),
                0 <= k <= s@.len(),
                forall|j: int| 0 <= j < k && s@[j] < drives@.len() ==> !drives@[#[trigger] s@[j] as int],
            decreases s@.len() - k,
        {
            let b = s[k];
            if b < drives.len() && drives[b] {
                proof {
                    assert(s@.contains(b));
                    assert forall|c: usize|
                        #[trigger] self@.contains(c) && c < drives@.len() && drives@[c as int]
                            implies b <= c by {
                        assert(s@.contains(c));
                        let j = choose|j: int| 0 <= j < s@.len() && s@[j] == c;
                        if j < k {
                            assert(!drives@[s@[j] as int]);
                        } else if j > k {
                            assert(s@[k as int] < s@[j]);
                        }
                    }
                }
                return Some(b);
            }
            k = k + 1;
        }
        proof {
            assert forall|c: usize| #[trigger] self@.contains(c) && c < drives@.len() implies !drives@[c as int] by {
                assert(s@.contains(c));
                let j = choose|j: int| 0 <= j < s@.len() && s@[j] == c;
                assert(!drives@[s@[j] as int]);
            }
        }
        None
    }
}

} // verus!
