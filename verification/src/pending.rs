use vstd::prelude::*;

use crate::model::bytes_eq;
use crate::update::{Update, update_view, updates_view, update_keys};

verus! {

/// The position of the last occurrence of `x` in `s`, or -1.
pub open spec fn last_pos<A>(s: Seq<A>, x: A) -> int
    decreases s.len(),
{
    if s.len() == 0 {
        -1
    } else if s.last() == x {
        s.len() - 1
    } else {
        last_pos(s.drop_last(), x)
    }
}

pub proof fn lemma_last_pos<A>(s: Seq<A>, x: A)
    ensures
        -1 <= last_pos(s, x) < s.len(),
        last_pos(s, x) >= 0 ==> s[last_pos(s, x)] == x,
        last_pos(s, x) < 0 ==> !s.contains(x),
        s.no_duplicates() ==> forall|i: int| 0 <= i < s.len() && s[i] == x ==> last_pos(s, x) == i,
    decreases s.len(),
{
    if s.len() > 0 {
        lemma_last_pos(s.drop_last(), x);
        if s.last() != x {
            if s.contains(x) {
                let i = choose|i: int| 0 <= i < s.len() && s[i] == x;
                assert(s.drop_last()[i] == x);
            }
        }
        if s.no_duplicates() {
            assert(s.drop_last().no_duplicates());
            assert forall|i: int| 0 <= i < s.len() && s[i] == x implies last_pos(s, x) == i by {
                if i < s.len() - 1 {
                    assert(s.drop_last()[i] == x);
                    if s.last() == x {
                        assert(s[s.len() - 1] == s[i]);
                    }
                }
            }
        }
    }
}

proof fn lemma_last_pos_push<A>(s: Seq<A>, x: A, y: A)
    ensures
        last_pos(s.push(y), x) == (if y == x {
            s.len() as int
        } else {
            last_pos(s, x)
        }),
{
    assert(s.push(y).drop_last() =~= s);
}

/// Updates gathered for each scope until the next save.
#[derive(Debug)]
pub struct ScopeUpdates {
    pub scopes: Vec<(String, Vec<Update>)>,
}

/// The names of the scopes that have updates.
pub open spec fn scope_names(v: Seq<(String, Vec<Update>)>) -> Seq<Seq<char>> {
    v.map_values(|e: (String, Vec<Update>)| e.0@)
}

impl ScopeUpdates {
    /// Each scope appears once, and each key once within its scope.
    pub open spec fn wf(&self) -> bool {
        &&& scope_names(self.scopes@).no_duplicates()
        &&& forall|i: int|
            0 <= i < self.scopes@.len() ==> update_keys(updates_view((#[trigger] self.scopes@[i]).1@)).no_duplicates()
    }

    /// The updates gathered for scope `name`, by view.
    pub open spec fn updates_of(&self, name: Seq<char>) -> Seq<(Seq<u8>, Option<Seq<u8>>)> {
        let i = last_pos(scope_names(self.scopes@), name);
        if i < 0 {
            Seq::empty()
        } else {
            updates_view(self.scopes@[i].1@)
        }
    }

    /// What is pending for `key` in scope `name`: `None` when nothing,
    /// `Some(Some(v))` when it is set to `v`, `Some(None)` when it is removed.
    pub open spec fn pending(&self, name: Seq<char>, key: Seq<u8>) -> Option<Option<Seq<u8>>> {
        let u = self.updates_of(name);
        let k = last_pos(update_keys(u), key);
        if k < 0 {
            None
        } else {
            Some(u[k].1)
        }
    }

    /// No updates.
    pub fn new() -> (r: ScopeUpdates)
        ensures
            r.wf(),
            forall|name: Seq<char>| #[trigger] r.updates_of(name).len() == 0,
    {
        ScopeUpdates { scopes: Vec::new() }
    }

    fn scope_pos(&self, name: &String) -> (r: Option<usize>)
        ensures
            match r {
                Some(i) => i == last_pos(scope_names(self.scopes@), name@) && i < self.scopes@.len(),
                None => last_pos(scope_names(self.scopes@), name@) < 0,
            },
    {
        let ghost ns = scope_names(self.scopes@);
        let mut i: usize = self.scopes.len();
        proof {
            assert(ns.take(i as int) =~= ns);
        }
        while i > 0
            invariant
                i <= self.scopes@.len(),
                ns == scope_names(self.scopes@),
                last_pos(ns, name@) == last_pos(ns.take(i as int), name@),
            decreases i,
        {
            proof {
                assert(ns.take(i as int).drop_last() =~= ns.take(i - 1));
                assert(ns.take(i as int).last() == self.scopes@[i - 1].0@);
            }
            if self.scopes[i - 1].0 == *name {
                return Some(i - 1);
            }
            i = i - 1;
        }
        None
    }

    /// Records an update of `key` in scope `name`, replacing an earlier one.
    fn record(&mut self, name: &String, key: Vec<u8>, value: Option<Vec<u8>>)
        requires
            old(self).wf(),
        ensures
            final(self).wf(),
            final(self).pending(name@, key@) == Some(
                match value {
                    Some(v) => Some(v@),
                    None => None,
                },
            ),
            forall|n: Seq<char>, k: Seq<u8>|
                !(n == name@ && k == key@) ==> #[trigger] final(self).pending(n, k) == old(
                    self,
                ).pending(n, k),
    {
        let ghost v0 = self.scopes@;
        let ghost upd = update_view((key, value));
        proof {
            lemma_last_pos(scope_names(v0), name@);
        }
        match self.scope_pos(name) {
            None => {
                let mut us: Vec<Update> = Vec::new();
                us.push((key, value));
                self.scopes.push((name.clone(), us));
                proof {
                    let v1 = self.scopes@;
                    assert(scope_names(v1) =~= scope_names(v0).push(name@));
                    lemma_last_pos_push(scope_names(v0), name@, name@);
                    assert(updates_view(us@) =~= seq![upd]);
                    assert(update_keys(seq![upd]) =~= seq![key@]);
                    assert(last_pos(seq![key@], key@) == 0) by {
                        assert(seq![key@].last() == key@);
                    }
                    assert(scope_names(v1).no_duplicates()) by {
                        assert(!scope_names(v0).contains(name@));
                    }
                    assert forall|i: int| 0 <= i < v1.len() implies update_keys(updates_view((#[trigger] v1[i]).1@)).no_duplicates() by {
                        if i < v0.len() {
                            assert(v1[i] == v0[i]);
                        }
                    }
                    assert forall|n: Seq<char>, k: Seq<u8>|
                        !(n == name@ && k == key@) implies #[trigger] self.pending(n, k) == old(self).pending(n, k) by {
                        lemma_last_pos_push(scope_names(v0), n, name@);
                        if n == name@ {
                            assert(update_keys(updates_view(us@)) =~= seq![key@]);
                            assert(seq![key@] =~= Seq::<Seq<u8>>::empty().push(key@));
                            lemma_last_pos_push(Seq::<Seq<u8>>::empty(), k, key@);
                        } else {
                            lemma_last_pos(scope_names(v0), n);
                            let i = last_pos(scope_names(v0), n);
                            if i >= 0 {
                                assert(v1[i] == v0[i]);
                            }
                        }
                    }
                }
            },
            Some(p) => {
                let mut entry: (String, Vec<Update>) = (String::new(), Vec::new());
                std::mem::swap(&mut self.scopes[p], &mut entry);
                let (sname, mut us) = entry;
                let ghost u0 = updates_view(us@);
                proof {
                    assert(sname@ == name@);
                    lemma_last_pos(update_keys(u0), key@);
                }
                let mut k: usize = us.len();
                proof {
                    assert(update_keys(u0).take(k as int) =~= update_keys(u0));
                }
                while k > 0 && !bytes_eq(&us[k - 1].0, &key)
                    invariant
                        k <= us@.len(),
                        u0 == updates_view(us@),
                        last_pos(update_keys(u0), key@) == last_pos(update_keys(u0).take(k as int), key@),
                    decreases k,
                {
                    proof {
                        assert(update_keys(u0).take(k as int).drop_last() =~= update_keys(u0).take(k - 1));
                        assert(update_keys(u0).take(k as int).last() == us@[k - 1].0@);
                    }
                    k = k - 1;
                }
                let found = k > 0;
                proof {
                    if found {
                        assert(update_keys(u0).take(k as int).last() == us@[k - 1].0@);
                        assert(update_keys(u0).take(k as int).last() == key@);
                        assert(last_pos(update_keys(u0), key@) == k - 1);
                    } else {
                        assert(update_keys(u0).take(0) =~= Seq::<Seq<u8>>::empty());
                        assert(last_pos(update_keys(u0), key@) == -1);
                    }
                }
                if found {
                    us.set(k - 1, (key, value));
                    proof {
                        let u1 = updates_view(us@);
                        assert(u1 =~= u0.update(k - 1, upd));
                        assert(update_keys(u1) =~= update_keys(u0));
                    }
                } else {
                    us.push((key, value));
                    proof {
                        let u1 = updates_view(us@);
                        assert(u1 =~= u0.push(upd));
                        assert(update_keys(u1) =~= update_keys(u0).push(key@));
                        assert(!update_keys(u0).contains(key@));
                    }
                }
                let ghost u1 = updates_view(us@);
                self.scopes.set(p, (sname, us));
                proof {
                    let v1 = self.scopes@;
                    assert(scope_names(v1) =~= scope_names(v0));
                    if found {
                        assert(update_keys(u1) =~= update_keys(u0));
                        assert(last_pos(update_keys(u1), key@) == k - 1);
                    } else {
                        lemma_last_pos_push(update_keys(u0), key@, key@);
                    }
                    assert forall|i: int| 0 <= i < v1.len() implies update_keys(updates_view((#[trigger] v1[i]).1@)).no_duplicates() by {
                        if i != p {
                            assert(v1[i] == v0[i]);
                        }
                    }
                    assert(last_pos(scope_names(v1), name@) == p);
                    assert forall|n: Seq<char>, kk: Seq<u8>|
                        !(n == name@ && kk == key@) implies #[trigger] self.pending(n, kk) == old(self).pending(n, kk) by {
                        lemma_last_pos(scope_names(v0), n);
                        if n == name@ {
                            assert(self.updates_of(n) == u1);
                            assert(old(self).updates_of(n) == u0);
                            lemma_last_pos(update_keys(u0), kk);
                            if !found {
                                lemma_last_pos_push(update_keys(u0), kk, key@);
                                assert(update_keys(u1) =~= update_keys(u0).push(key@));
                            } else {
                                assert(update_keys(u1) =~= update_keys(u0));
                            }
                            let idx = last_pos(update_keys(u0), kk);
                            if idx >= 0 {
                                assert(update_keys(u0)[idx] == kk);
                                assert(u1[idx] == u0[idx]);
                            }
                        } else {
                            let i = last_pos(scope_names(v0), n);
                            if i >= 0 {
                                assert(i != p);
                                assert(v1[i] == v0[i]);
                            }
                        }
                    }
                }
            },
        }
    }

    /// Sets `key` to `value` in scope `name`; the last update of a key wins.
    pub fn set(&mut self, name: &String, key: Vec<u8>, value: Vec<u8>)
        requires
            old(self).wf(),
        ensures
            final(self).wf(),
            final(self).pending(name@, key@) == Some(Some(value@)),
            forall|n: Seq<char>, k: Seq<u8>|
                !(n == name@ && k == key@) ==> #[trigger] final(self).pending(n, k) == old(
                    self,
                ).pending(n, k),
    {
        self.record(name, key, Some(value));
    }

    /// Removes `key` from scope `name`; the last update of a key wins.
    pub fn remove(&mut self, name: &String, key: &Vec<u8>)
        requires
            old(self).wf(),
        ensures
            final(self).wf(),
            final(self).pending(name@, key@) == Some(None::<Seq<u8>>),
            forall|n: Seq<char>, k: Seq<u8>|
                !(n == name@ && k == key@) ==> #[trigger] final(self).pending(n, k) == old(
                    self,
                ).pending(n, k),
    {
        self.record(name, crate::model::clone_bytes(key), None);
    }

    /// Takes the updates of scope `name` out, leaving none for it; each key
    /// comes once.
    pub fn take(&mut self, name: &String) -> (r: Vec<Update>)
        requires
            old(self).wf(),
        ensures
            final(self).wf(),
            updates_view(r@) == old(self).updates_of(name@),
            update_keys(updates_view(r@)).no_duplicates(),
            final(self).updates_of(name@).len() == 0,
            forall|n: Seq<char>| n != name@ ==> #[trigger] final(self).updates_of(n) == old(
                self,
            ).updates_of(n),
    {
        let ghost v0 = self.scopes@;
        proof {
            lemma_last_pos(scope_names(v0), name@);
        }
        match self.scope_pos(name) {
            None => Vec::new(),
            Some(p) => {
                let mut entry: (String, Vec<Update>) = (String::new(), Vec::new());
                std::mem::swap(&mut self.scopes[p], &mut entry);
                let (sname, us) = entry;
                self.scopes.set(p, (sname, Vec::new()));
                proof {
                    let v1 = self.scopes@;
                    assert(scope_names(v1) =~= scope_names(v0));
                    assert(updates_view(v1[p as int].1@) =~= Seq::<(Seq<u8>, Option<Seq<u8>>)>::empty());
                    assert(update_keys(Seq::<(Seq<u8>, Option<Seq<u8>>)>::empty()) =~= Seq::<Seq<u8>>::empty());
                    assert forall|i: int| 0 <= i < v1.len() implies update_keys(updates_view((#[trigger] v1[i]).1@)).no_duplicates() by {
                        if i != p {
                            assert(v1[i] == v0[i]);
                        }
                    }
                    assert forall|n: Seq<char>| n != name@ implies #[trigger] self.updates_of(n) == old(self).updates_of(n) by {
                        lemma_last_pos(scope_names(v0), n);
                        let i = last_pos(scope_names(v0), n);
                        if i >= 0 {
                            assert(i != p);
                            assert(v1[i] == v0[i]);
                        }
                    }
                }
                us
            },
        }
    }
}

/// One call on pending updates: scope, key, and `Some` value for a set or
/// `None` for a removal.
pub type Call = (Seq<char>, Seq<u8>, Option<Seq<u8>>);

/// What the last of `calls` on `key` in scope `name` left pending, or `None`
/// when no call touched it.
pub open spec fn last_call(calls: Seq<Call>, name: Seq<char>, key: Seq<u8>) -> Option<
    Option<Seq<u8>>,
>
    decreases calls.len(),
{
    if calls.len() == 0 {
        None
    } else if calls.last().0 == name && calls.last().1 == key {
        Some(calls.last().2)
    } else {
        last_call(calls.drop_last(), name, key)
    }
}

/// The pending updates are those that `calls`, made in order, leave.
pub open spec fn follows(s: ScopeUpdates, calls: Seq<Call>) -> bool {
    forall|n: Seq<char>, k: Seq<u8>| #[trigger] s.pending(n, k) == last_call(calls, n, k)
}

/// Pending updates with nothing gathered follow no calls.
pub proof fn lemma_no_calls(s: ScopeUpdates)
    requires
        forall|name: Seq<char>| #[trigger] s.updates_of(name).len() == 0,
    ensures
        follows(s, Seq::empty()),
{
    assert forall|n: Seq<char>, k: Seq<u8>| #[trigger] s.pending(n, k) == last_call(
        Seq::<Call>::empty(),
        n,
        k,
    ) by {
        assert(s.updates_of(n).len() == 0);
        lemma_last_pos(update_keys(s.updates_of(n)), k);
    }
}

/// The last call wins: pending updates that follow a sequence of calls, changed
/// by one more set or removal as `set` and `remove` change them, follow the
/// sequence with that call appended. So over any sequence of `set` and
/// `remove` calls, each key of each scope holds what its last call gave it.
pub proof fn lemma_last_call_wins(before: ScopeUpdates, after: ScopeUpdates, calls: Seq<Call>, call: Call)
    requires
        follows(before, calls),
        after.pending(call.0, call.1) == Some(call.2),
        forall|n: Seq<char>, k: Seq<u8>|
            !(n == call.0 && k == call.1) ==> #[trigger] after.pending(n, k) == before.pending(n, k),
    ensures
        follows(after, calls.push(call)),
{
    assert forall|n: Seq<char>, k: Seq<u8>| #[trigger] after.pending(n, k) == last_call(
        calls.push(call),
        n,
        k,
    ) by {
        assert(calls.push(call).drop_last() =~= calls);
        if !(n == call.0 && k == call.1) {
            assert(before.pending(n, k) == last_call(calls, n, k));
        }
    }
}

impl ScopeUpdates {
    /// The scopes with updates that are not among `existing`, in the order
    /// their updates were first gathered: the scopes a save must create empty
    /// before it applies the updates.
    pub fn scopes_to_create(&self, existing: &Vec<String>) -> (r: Vec<String>)
        ensures
            r@.map_values(|x: String| x@) == scope_names(self.scopes@).filter(
                absent_from(existing@.map_values(|x: String| x@)),
            ),
    {
        let ghost names = scope_names(self.scopes@);
        let ghost ex = existing@.map_values(|x: String| x@);
        let mut out: Vec<String> = Vec::new();
        let mut i: usize = 0;
        proof {
            assert(names.take(0).filter(absent_from(ex)) =~= Seq::<Seq<char>>::empty());
        }
        while i < self.scopes.len()
            invariant
                names == scope_names(self.scopes@),
                ex == existing@.map_values(|x: String| x@),
                i <= self.scopes@.len(),
                out@.map_values(|x: String| x@) == names.take(i as int).filter(absent_from(ex)),
            decreases self.scopes@.len() - i,
        {
            proof {
                assert(names.take(i + 1) =~= names.take(i as int).push(names[i as int]));
                names.take(i as int).lemma_filter_push(names[i as int], absent_from(ex));
            }
            let name = &self.scopes[i].0;
            let mut found = false;
            let mut j: usize = 0;
            while j < existing.len()
                invariant
                    ex == existing@.map_values(|x: String| x@),
                    j <= existing@.len(),
                    found == ex.take(j as int).contains(name@),
                decreases existing@.len() - j,
            {
                proof {
                    assert(ex.take(j + 1) =~= ex.take(j as int).push(existing@[j as int]@));
                }
                let same = existing[j] == *name;
                if same {
                    found = true;
                }
                proof {
                    let t0 = ex.take(j as int);
                    let t1 = ex.take(j + 1);
                    if same {
                        assert(t1[j as int] == name@);
                    } else if t1.contains(name@) {
                        let m = choose|m: int| 0 <= m < t1.len() && t1[m] == name@;
                        assert(m != j);
                        assert(t0[m] == name@);
                    }
                    if t0.contains(name@) {
                        let m = choose|m: int| 0 <= m < t0.len() && t0[m] == name@;
                        assert(t1[m] == name@);
                    }
                }
                j = j + 1;
            }
            proof {
                assert(ex.take(j as int) =~= ex);
                assert(names[i as int] == name@);
            }
            if !found {
                let ghost o0 = out@.map_values(|x: String| x@);
                out.push(name.clone());
                proof {
                    assert(out@.map_values(|x: String| x@) =~= o0.push(name@));
                }
            }
            i = i + 1;
        }
        proof {
            assert(names.take(i as int) =~= names);
        }
        out
    }
}

/// Whether a name is not among `names`.
pub open spec fn absent_from(names: Seq<Seq<char>>) -> spec_fn(Seq<char>) -> bool {
    |n: Seq<char>| !names.contains(n)
}

} // verus!
