//! The table of metric registries served besides the default one: each
//! registry gets a fresh index, and the entries whose registry is gone are
//! swept out when the metrics are gathered.
use std::collections::HashMap;
use vstd::prelude::*;
use vstd::std_specs::hash::spec_keys_iter;
use vstd::std_specs::iter::IteratorSpec;

verus! {

broadcast use vstd::std_specs::hash::group_hash_axioms;

/// The values of the `Ok` entries of `s`, in order.
pub open spec fn ok_values<T, E>(s: Seq<Result<T, E>>) -> Seq<T>
    decreases s.len(),
{
    if s.len() == 0 {
        Seq::empty()
    } else {
        let rest = ok_values(s.drop_last());
        match s.last() {
            Ok(v) => rest.push(v),
            Err(_) => rest,
        }
    }
}

/// The values of the `Err` entries of `s`, in order.
pub open spec fn err_values<T, E>(s: Seq<Result<T, E>>) -> Seq<E>
    decreases s.len(),
{
    if s.len() == 0 {
        Seq::empty()
    } else {
        let rest = err_values(s.drop_last());
        match s.last() {
            Ok(_) => rest,
            Err(e) => rest.push(e),
        }
    }
}

/// Together the two sides hold every entry.
pub proof fn lemma_partition_len<T, E>(s: Seq<Result<T, E>>)
    ensures
        ok_values(s).len() + err_values(s).len() == s.len(),
    decreases s.len(),
{
    if s.len() > 0 {
        lemma_partition_len(s.drop_last());
    }
}

/// Every `Ok` value comes from an entry of `s`.
pub proof fn lemma_ok_values<T, E>(s: Seq<Result<T, E>>, x: T)
    ensures
        ok_values(s).contains(x) ==> exists|j: int| 0 <= j < s.len() && s[j] == Ok::<T, E>(x),
    decreases s.len(),
{
    if s.len() > 0 {
        let init = s.drop_last();
        lemma_ok_values(init, x);
        if ok_values(s).contains(x) {
            let rest = ok_values(init);
            let k = choose|k: int| 0 <= k < ok_values(s).len() && ok_values(s)[k] == x;
            if k < rest.len() {
                assert(rest[k] == x);
                let j = choose|j: int| 0 <= j < init.len() && init[j] == Ok::<T, E>(x);
                assert(s[j] == init[j]);
            } else {
                assert(s[s.len() - 1] == Ok::<T, E>(x));
            }
        }
    }
}

/// The `Err` values are exactly the payloads of the `Err` entries of `s`,
/// and each occurs once when the entries carry distinct payloads.
pub proof fn lemma_err_values<T, E>(s: Seq<Result<T, E>>)
    ensures
        forall|e: E|
            err_values(s).contains(e) <==> exists|j: int| 0 <= j < s.len() && #[trigger] s[j] == Err::<T, E>(e),
        (forall|j1: int, j2: int|
            0 <= j1 < s.len() && 0 <= j2 < s.len() && j1 != j2 && s[j1] is Err && s[j2] is Err
                ==> s[j1]->Err_0 != s[j2]->Err_0) ==> err_values(s).no_duplicates(),
    decreases s.len(),
{
    if s.len() > 0 {
        let init = s.drop_last();
        lemma_err_values(init);
        let rest = err_values(init);
        assert forall|e: E|
            err_values(s).contains(e) <==> exists|j: int| 0 <= j < s.len() && #[trigger] s[j] == Err::<T, E>(e) by {
            if err_values(s).contains(e) {
                let k = choose|k: int| 0 <= k < err_values(s).len() && err_values(s)[k] == e;
                if k < rest.len() {
                    assert(rest[k] == e);
                    assert(rest.contains(e));
                    let j = choose|j: int| 0 <= j < init.len() && #[trigger] init[j] == Err::<T, E>(e);
                    assert(s[j] == init[j]);
                } else {
                    assert(s[s.len() - 1] == Err::<T, E>(e));
                }
            }
            if exists|j: int| 0 <= j < s.len() && #[trigger] s[j] == Err::<T, E>(e) {
                let j = choose|j: int| 0 <= j < s.len() && #[trigger] s[j] == Err::<T, E>(e);
                if j < init.len() {
                    assert(init[j] == Err::<T, E>(e));
                    assert(rest.contains(e));
                    let k = choose|k: int| 0 <= k < rest.len() && rest[k] == e;
                    assert(err_values(s)[k] == e);
                } else {
                    assert(err_values(s) == rest.push(e));
                    assert(err_values(s)[rest.len() as int] == e);
                }
            }
        }
        if forall|j1: int, j2: int|
            0 <= j1 < s.len() && 0 <= j2 < s.len() && j1 != j2 && s[j1] is Err && s[j2] is Err
                ==> s[j1]->Err_0 != s[j2]->Err_0 {
            assert forall|j1: int, j2: int|
                0 <= j1 < init.len() && 0 <= j2 < init.len() && j1 != j2 && init[j1] is Err
                    && init[j2] is Err implies init[j1]->Err_0 != init[j2]->Err_0 by {
                assert(init[j1] == s[j1] && init[j2] == s[j2]);
            }
            if let Err(e) = s.last() {
                if rest.contains(e) {
                    let j = choose|j: int| 0 <= j < init.len() && #[trigger] init[j] == Err::<T, E>(e);
                    assert(s[j] == init[j]);
                    assert(s[s.len() - 1] == Err::<T, E>(e));
                }
                assert(err_values(s) == rest.push(e));
                assert forall|a: int, b: int|
                    0 <= a < err_values(s).len() && 0 <= b < err_values(s).len() && a != b
                        implies err_values(s)[a] != err_values(s)[b] by {
                    if a < rest.len() && b < rest.len() {
                    } else if a < rest.len() {
                        assert(rest.contains(rest[a]));
                    } else {
                        assert(rest.contains(rest[b]));
                    }
                }
            }
        }
    }
}

/// The indices of a list of indexed values, in order.
pub open spec fn indices_of<T>(v: Seq<(usize, T)>) -> Seq<usize> {
    v.map_values(|p: (usize, T)| p.0)
}

/// The indices of the `Ok` values are exactly those of the `Ok` entries of
/// `s`, and each occurs once when the `Ok` entries carry distinct indices.
pub proof fn lemma_ok_indices<T, E>(s: Seq<Result<(usize, T), E>>)
    ensures
        forall|i: usize|
            #[trigger] indices_of(ok_values(s)).contains(i) <==> exists|j: int|
                0 <= j < s.len() && s[j] is Ok && s[j]->Ok_0.0 == i,
        (forall|j1: int, j2: int|
            0 <= j1 < s.len() && 0 <= j2 < s.len() && j1 != j2 && s[j1] is Ok && s[j2] is Ok
                ==> s[j1]->Ok_0.0 != s[j2]->Ok_0.0) ==> indices_of(ok_values(s)).no_duplicates(),
    decreases s.len(),
{
    if s.len() > 0 {
        let init = s.drop_last();
        lemma_ok_indices(init);
        let rest = indices_of(ok_values(init));
        let all = indices_of(ok_values(s));
        match s.last() {
            Ok(v) => {
                assert(all =~= rest.push(v.0));
            },
            Err(_) => {
                assert(all =~= rest);
            },
        }
        assert forall|i: usize|
            all.contains(i) <==> exists|j: int| 0 <= j < s.len() && #[trigger] s[j] is Ok && s[j]->Ok_0.0 == i by {
            if all.contains(i) {
                let k = choose|k: int| 0 <= k < all.len() && all[k] == i;
                if k < rest.len() {
                    assert(rest[k] == i);
                    assert(rest.contains(i));
                    let j = choose|j: int| 0 <= j < init.len() && #[trigger] init[j] is Ok && init[j]->Ok_0.0 == i;
                    assert(s[j] == init[j]);
                } else {
                    assert(s[s.len() - 1] is Ok);
                }
            }
            if exists|j: int| 0 <= j < s.len() && #[trigger] s[j] is Ok && s[j]->Ok_0.0 == i {
                let j = choose|j: int| 0 <= j < s.len() && #[trigger] s[j] is Ok && s[j]->Ok_0.0 == i;
                if j < init.len() {
                    assert(init[j] == s[j]);
                    assert(rest.contains(i));
                    let k = choose|k: int| 0 <= k < rest.len() && rest[k] == i;
                    assert(all[k] == i);
                } else {
                    assert(all[rest.len() as int] == i);
                }
            }
        }
        if forall|j1: int, j2: int|
            0 <= j1 < s.len() && 0 <= j2 < s.len() && j1 != j2 && s[j1] is Ok && s[j2] is Ok
                ==> s[j1]->Ok_0.0 != s[j2]->Ok_0.0 {
            assert forall|j1: int, j2: int|
                0 <= j1 < init.len() && 0 <= j2 < init.len() && j1 != j2 && init[j1] is Ok
                    && init[j2] is Ok implies init[j1]->Ok_0.0 != init[j2]->Ok_0.0 by {
                assert(init[j1] == s[j1] && init[j2] == s[j2]);
            }
            if let Ok(v) = s.last() {
                if rest.contains(v.0) {
                    let j = choose|j: int| 0 <= j < init.len() && #[trigger] init[j] is Ok && init[j]->Ok_0.0 == v.0;
                    assert(s[j] == init[j]);
                    assert(s[s.len() - 1] is Ok);
                }
                assert forall|a: int, b: int|
                    0 <= a < all.len() && 0 <= b < all.len() && a != b implies all[a] != all[b] by {
                    if a < rest.len() && b < rest.len() {
                    } else if a < rest.len() {
                        assert(rest.contains(rest[a]));
                    } else {
                        assert(rest.contains(rest[b]));
                    }
                }
            }
        }
    }
}

/// Calls `itertools::Itertools::partition_result` on the entries of
/// `results`. Claimed, as its source shows (`partition_map` extending each
/// side in iteration order): the `Ok` values and the `Err` values, each in
/// their order.
#[verifier::external_body]
fn partition_results<T, E>(results: Vec<Result<T, E>>) -> (r: (Vec<T>, Vec<E>))
    ensures
        r.0@ == ok_values(results@),
        r.1@ == err_values(results@),
{
    itertools::Itertools::partition_result(results.into_iter())
}

/// The mathematical state of a `RegistryTable`.
pub struct RegistryTableView<W> {
    pub registries: Map<usize, W>,
    pub next_idx: usize,
}

impl<W> RegistryTableView<W> {
    /// Indices start at 1 and every index in use was handed out before
    /// `next_idx`.
    pub open spec fn wf(self) -> bool {
        &&& 1 <= self.next_idx
        &&& forall|i: usize| #[trigger] self.registries.contains_key(i) ==> 1 <= i < self.next_idx
    }
}

/// Registries indexed by the order in which they were added.
pub struct RegistryTable<W> {
    registries: HashMap<usize, W>,
    next_idx: usize,
}

impl<W> View for RegistryTable<W> {
    type V = RegistryTableView<W>;

    closed spec fn view(&self) -> RegistryTableView<W> {
        RegistryTableView { registries: self.registries@, next_idx: self.next_idx }
    }
}

impl<W> RegistryTable<W> {
    /// The table keeps the invariant of its model at all times.
    #[verifier::type_invariant]
    closed spec fn inv(self) -> bool {
        self@.wf()
    }

    /// An empty table whose first index is 1.
    pub fn new() -> (r: Self)
        ensures
            r@.registries == Map::<usize, W>::empty(),
            r@.next_idx == 1,
            r@.wf(),
    {
        RegistryTable { registries: HashMap::new(), next_idx: 1 }
    }

    /// Adds a registry under the next index and returns that index, which
    /// no registry of the table holds. The index `usize::MAX` is never
    /// handed out: callers check `next_index` first.
    pub fn add_registry(&mut self, registry: W) -> (r: usize)
        requires
            old(self)@.next_idx != usize::MAX,
        ensures
            r == old(self)@.next_idx,
            !old(self)@.registries.contains_key(r),
            final(self)@.registries == old(self)@.registries.insert(r, registry),
            final(self)@.next_idx == old(self)@.next_idx + 1,
            final(self)@.wf(),
    {
        proof {
            use_type_invariant(&*self);
        }
        let idx = self.next_idx;
        let mut registries: HashMap<usize, W> = HashMap::new();
        std::mem::swap(&mut registries, &mut self.registries);
        self.next_idx = idx + 1;
        registries.insert(idx, registry);
        assert forall|i: usize| #[trigger] registries@.contains_key(i) implies 1 <= i
            < self.next_idx by {
            if i != idx {
                assert(old(self)@.registries.contains_key(i));
            }
        }
        self.registries = registries;
        idx
    }

    /// The index that the next added registry gets.
    pub fn next_index(&self) -> (r: usize)
        ensures
            r == self@.next_idx,
    {
        self.next_idx
    }

    /// The number of registries held.
    pub fn len(&self) -> (r: usize)
        ensures
            r == self@.registries.len(),
    {
        self.registries.len()
    }

    /// Asks `upgrade` for each registry, in the order of `indices`; the
    /// registries for which it answers `None` leave the table. Returns the
    /// answers for the others, each with its index, and the indices that
    /// left.
    #[verifier::spinoff_prover]
    pub fn sweep<T, F: Fn(&W) -> Option<T>>(&mut self, upgrade: F) -> (r: (Vec<(usize, T)>, Vec<usize>))
        requires
            forall|w: &W| #[trigger] upgrade.requires((w,)),
        ensures
            final(self)@.wf(),
            final(self)@.next_idx == old(self)@.next_idx,
            forall|i: usize| #[trigger]
                final(self)@.registries.contains_key(i) ==> {
                    &&& old(self)@.registries.contains_key(i)
                    &&& final(self)@.registries[i] == old(self)@.registries[i]
                    &&& exists|v: T| upgrade.ensures((&old(self)@.registries[i],), Some(v))
                },
            forall|i: usize|
                #[trigger] old(self)@.registries.contains_key(i) && !final(self)@.registries.contains_key(
                    i,
                ) ==> upgrade.ensures((&old(self)@.registries[i],), None),
            r.0@.len() == final(self)@.registries.len(),
            forall|k: int|
                0 <= k < r.0@.len() ==> #[trigger] final(self)@.registries.contains_key(r.0@[k].0)
                    && upgrade.ensures((&old(self)@.registries[r.0@[k].0],), Some(r.0@[k].1)),
            indices_of(r.0@).to_set() == final(self)@.registries.dom(),
            indices_of(r.0@).no_duplicates(),
            r.1@.to_set() == old(self)@.registries.dom().difference(final(self)@.registries.dom()),
            r.1@.no_duplicates(),
    {
        proof {
            use_type_invariant(&*self);
        }
        let ghost old_map = self.registries@;
        let ghost old_next = self.next_idx;
        let keys = self.indices();
        let mut results: Vec<Result<(usize, T), usize>> = Vec::new();
        let mut j: usize = 0;
        while j < keys.len()
            invariant
                self.registries@ == old_map,
                self.next_idx == old_next,
                keys@.to_set() == old_map.dom(),
                keys@.no_duplicates(),
                j <= keys@.len(),
                results@.len() == j,
                forall|w: &W| #[trigger] upgrade.requires((w,)),
                forall|m: int|
                    0 <= m < j ==> match #[trigger] results@[m] {
                        Ok(x) => x.0 == keys@[m] && upgrade.ensures((&old_map[keys@[m]],), Some(x.1)),
                        Err(e) => e == keys@[m] && upgrade.ensures((&old_map[keys@[m]],), None),
                    },
            decreases keys@.len() - j,
        {
            let k = keys[j];
            assert(keys@.to_set().contains(k));
            let registry = self.registries.get(&k).unwrap();
            let res = match upgrade(registry) {
                Some(x) => Ok((k, x)),
                None => Err(k),
            };
            results.push(res);
            j = j + 1;
        }
        let ghost all = results@;
        assert(ok_values(all).len() + err_values(all).len() == all.len()) by {
            lemma_partition_len(all);
        }
        assert({
            &&& forall|e: usize|
                err_values(all).contains(e) <==> exists|j: int|
                    0 <= j < all.len() && #[trigger] all[j] == Err::<(usize, T), usize>(e)
            &&& err_values(all).no_duplicates()
        }) by {
            lemma_err_values(all);
            assert forall|j1: int, j2: int|
                0 <= j1 < all.len() && 0 <= j2 < all.len() && j1 != j2 && all[j1] is Err && all[j2]
                    is Err implies all[j1]->Err_0 != all[j2]->Err_0 by {
                assert(all[j1]->Err_0 == keys@[j1]);
                assert(all[j2]->Err_0 == keys@[j2]);
            }
        }
        let (live, dead) = partition_results(results);
        proof {
            keys@.unique_seq_to_set();
        }
        let mut registries: HashMap<usize, W> = HashMap::new();
        std::mem::swap(&mut registries, &mut self.registries);
        let mut m: usize = 0;
        while m < dead.len()
            invariant
                m <= dead@.len(),
                dead@ == err_values(all),
                dead@.no_duplicates(),
                all.len() == keys@.len(),
                keys@.to_set() == old_map.dom(),
                forall|e: usize|
                    dead@.contains(e) <==> exists|j: int| 0 <= j < all.len() && #[trigger] all[j] == Err::<(usize, T), usize>(e),
                forall|j: int|
                    0 <= j < all.len() ==> match #[trigger] all[j] {
                        Ok(x) => x.0 == keys@[j] && upgrade.ensures((&old_map[keys@[j]],), Some(x.1)),
                        Err(e) => e == keys@[j] && upgrade.ensures((&old_map[keys@[j]],), None),
                    },
                registries@ == old_map.remove_keys(dead@.take(m as int).to_set()),
                registries@.len() == old_map.len() - m,
                self.next_idx == old_next,
            decreases dead@.len() - m,
        {
            let e = dead[m];
            proof {
                assert(dead@.contains(e));
                let j = choose|j: int| 0 <= j < all.len() && #[trigger] all[j] == Err::<(usize, T), usize>(e);
                assert(keys@[j] == e);
                assert(keys@.to_set().contains(e));
                if dead@.take(m as int).contains(e) {
                    let k = choose|k: int| 0 <= k < m && dead@.take(m as int)[k] == e;
                    assert(dead@[k] == dead@[m as int]);
                }
                assert(registries@.contains_key(e));
                dead@.take(m as int).lemma_push_to_set_commute(e);
            }
            registries.remove(&e);
            assert(dead@.take(m + 1) =~= dead@.take(m as int).push(e));
            assert(registries@ =~= old_map.remove_keys(dead@.take(m + 1).to_set()));
            m = m + 1;
        }
        assert forall|i: usize| #[trigger] registries@.contains_key(i) implies 1 <= i < self.next_idx by {
            assert(old_map.contains_key(i));
        }
        self.registries = registries;
        assert(dead@.take(dead@.len() as int) =~= dead@);
        assert forall|i: usize| #[trigger] self@.registries.contains_key(i) implies {
            &&& old_map.contains_key(i)
            &&& self@.registries[i] == old_map[i]
            &&& exists|v: T| upgrade.ensures((&old_map[i],), Some(v))
        } by {
            assert(keys@.to_set().contains(i));
            let j = choose|j: int| 0 <= j < keys@.len() && keys@[j] == i;
            assert(!dead@.to_set().contains(i));
            match all[j] {
                Ok(x) => {},
                Err(e) => {
                    assert(all[j] == Err::<(usize, T), usize>(e));
                    assert(dead@.contains(e));
                },
            }
        }
        assert forall|i: usize|
            #[trigger] old_map.contains_key(i) && !self@.registries.contains_key(i) implies upgrade.ensures(
            (&old_map[i],),
            None,
        ) by {
            assert(dead@.to_set().contains(i));
            assert(dead@.contains(i));
            let j = choose|j: int| 0 <= j < all.len() && #[trigger] all[j] == Err::<(usize, T), usize>(i);
        }
        assert forall|i: usize| #[trigger] dead@.to_set().contains(i) implies old_map.contains_key(i) by {
            assert(dead@.contains(i));
            let j = choose|j: int| 0 <= j < all.len() && #[trigger] all[j] == Err::<(usize, T), usize>(i);
            assert(keys@[j] == i);
            assert(keys@.to_set().contains(i));
        }
        assert(dead@.to_set() =~= old_map.dom().difference(self@.registries.dom()));
        assert(indices_of(live@).to_set() =~= self@.registries.dom() && indices_of(live@).no_duplicates()) by {
            lemma_ok_indices(all);
            let idxs = indices_of(live@);
            assert forall|j1: int, j2: int|
                0 <= j1 < all.len() && 0 <= j2 < all.len() && j1 != j2 && all[j1] is Ok && all[j2]
                    is Ok implies all[j1]->Ok_0.0 != all[j2]->Ok_0.0 by {
                assert(all[j1]->Ok_0.0 == keys@[j1]);
                assert(all[j2]->Ok_0.0 == keys@[j2]);
            }
            assert forall|i: usize| idxs.to_set().contains(i) <==> self@.registries.contains_key(i) by {
                if idxs.contains(i) {
                    let j = choose|j: int| 0 <= j < all.len() && #[trigger] all[j] is Ok && all[j]->Ok_0.0 == i;
                    assert(keys@[j] == i);
                    assert(keys@.to_set().contains(i));
                    if dead@.contains(i) {
                        let j2 = choose|j2: int| 0 <= j2 < all.len() && #[trigger] all[j2] == Err::<(usize, T), usize>(i);
                        assert(keys@[j2] == i);
                    }
                    assert(!dead@.to_set().contains(i));
                }
                if self@.registries.contains_key(i) {
                    assert(old_map.contains_key(i));
                    assert(keys@.to_set().contains(i));
                    let j = choose|j: int| 0 <= j < keys@.len() && keys@[j] == i;
                    assert(!dead@.to_set().contains(i));
                    match all[j] {
                        Ok(x) => {
                            assert(all[j] is Ok && all[j]->Ok_0.0 == i);
                        },
                        Err(e) => {
                            assert(all[j] == Err::<(usize, T), usize>(e));
                            assert(dead@.contains(e));
                        },
                    }
                }
            }
            assert(idxs.to_set() =~= self@.registries.dom());
        }
        assert forall|k: int| 0 <= k < live@.len() implies #[trigger] self@.registries.contains_key(live@[k].0)
            && upgrade.ensures((&old(self)@.registries[live@[k].0],), Some(live@[k].1)) by {
            let x = live@[k];
            lemma_ok_values(all, x);
            assert(live@.contains(x));
            let j = choose|j: int| 0 <= j < all.len() && all[j] == Ok::<(usize, T), usize>(x);
            let i = keys@[j];
            assert(x.0 == i);
            assert(keys@.to_set().contains(i));
            if dead@.contains(i) {
                let j2 = choose|j2: int| 0 <= j2 < all.len() && #[trigger] all[j2] == Err::<(usize, T), usize>(i);
                assert(keys@[j2] == i);
            }
            assert(!dead@.to_set().contains(i));
        }
        (live, dead)
    }

    /// The indices in use, each once.
    pub fn indices(&self) -> (r: Vec<usize>)
        ensures
            r@.to_set() == self@.registries.dom(),
            r@.no_duplicates(),
    {
        let mut r: Vec<usize> = Vec::new();
        let ghost keys = spec_keys_iter(&self.registries).remaining();
        for k in it: self.registries.keys()
            invariant
                it.seq() == keys,
                r@ == keys.take(it.index()).unref(),
        {
            r.push(*k);
            assert(keys.take(it.index() + 1).unref() =~= keys.take(it.index()).unref().push(*k));
        }
        assert(keys.take(keys.len() as int) =~= keys);
        assert(r@ == keys.unref());
        r
    }
}

} // verus!
