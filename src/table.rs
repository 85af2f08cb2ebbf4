//! Small association tables: a vector of key/value pairs with distinct keys,
//! seen as a map from the keys' views to the values' views.
use vstd::prelude::*;
use crate::ip::IpAddress;

verus! {

impl DeepView for IpAddress {
    type V = IpAddress;

    open spec fn deep_view(&self) -> IpAddress {
        *self
    }
}

/// Keys whose equality can be decided on their views.
pub trait KeyEq: DeepView + Sized {
    fn key_eq(&self, o: &Self) -> (r: bool)
        ensures
            r == (self.deep_view() == o.deep_view()),
    ;
}

/// Values that can be copied with the same view.
pub trait DeepClone: DeepView + Sized {
    fn deep_clone(&self) -> (r: Self)
        ensures
            r.deep_view() == self.deep_view(),
    ;
}

impl KeyEq for String {
    fn key_eq(&self, o: &Self) -> (r: bool) {
        *self == *o
    }
}

impl KeyEq for IpAddress {
    fn key_eq(&self, o: &Self) -> (r: bool) {
        *self == *o
    }
}

impl KeyEq for (String, String) {
    fn key_eq(&self, o: &Self) -> (r: bool) {
        self.0 == o.0 && self.1 == o.1
    }
}

impl KeyEq for (String, IpAddress) {
    fn key_eq(&self, o: &Self) -> (r: bool) {
        self.0 == o.0 && self.1 == o.1
    }
}

impl DeepClone for String {
    fn deep_clone(&self) -> (r: Self) {
        self.clone()
    }
}

impl DeepClone for IpAddress {
    fn deep_clone(&self) -> (r: Self) {
        *self
    }
}

impl DeepClone for u32 {
    fn deep_clone(&self) -> (r: Self) {
        *self
    }
}

impl DeepClone for u128 {
    fn deep_clone(&self) -> (r: Self) {
        *self
    }
}

/// The map that a table stands for; a later pair overrides an earlier one.
pub open spec fn table<K: DeepView, V: DeepView>(m: Seq<(K, V)>) -> Map<K::V, V::V>
    decreases m.len(),
{
    if m.len() == 0 {
        Map::empty()
    } else {
        table(m.drop_last()).insert(m.last().0.deep_view(), m.last().1.deep_view())
    }
}

pub open spec fn distinct_keys<K: DeepView, V>(m: Seq<(K, V)>) -> bool {
    forall|i: int, j: int|
        0 <= i < j < m.len() ==> (#[trigger] m[i].0.deep_view()) != (#[trigger] m[j].0.deep_view())
}

/// The value under `k`, or the empty sequence.
pub open spec fn seq_or_empty<K, T>(m: Map<K, Seq<T>>, k: K) -> Seq<T> {
    if m.contains_key(k) {
        m[k]
    } else {
        Seq::empty()
    }
}

/// `s` with `x` added at the end unless it is already there.
pub open spec fn push_new<T>(s: Seq<T>, x: T) -> Seq<T> {
    if s.contains(x) {
        s
    } else {
        s.push(x)
    }
}

pub proof fn lemma_table_at<K: DeepView, V: DeepView>(m: Seq<(K, V)>, i: int)
    requires
        distinct_keys(m),
        0 <= i < m.len(),
    ensures
        table(m).contains_key(m[i].0.deep_view()),
        table(m)[m[i].0.deep_view()] == m[i].1.deep_view(),
    decreases m.len(),
{
    if i < m.len() - 1 {
        lemma_table_at(m.drop_last(), i);
        assert(m[i].0.deep_view() != m[m.len() - 1].0.deep_view());
    }
}

pub proof fn lemma_table_missing<K: DeepView, V: DeepView>(m: Seq<(K, V)>, k: K::V)
    requires
        forall|i: int| 0 <= i < m.len() ==> (#[trigger] m[i].0.deep_view()) != k,
    ensures
        !table(m).contains_key(k),
    decreases m.len(),
{
    if m.len() > 0 {
        assert(m.last().0.deep_view() != k);
        lemma_table_missing(m.drop_last(), k);
    }
}

pub proof fn lemma_table_set<K: DeepView, V: DeepView>(m: Seq<(K, V)>, i: int, e: (K, V))
    requires
        distinct_keys(m),
        0 <= i < m.len(),
        e.0.deep_view() == m[i].0.deep_view(),
    ensures
        distinct_keys(m.update(i, e)),
        table(m.update(i, e)) == table(m).insert(e.0.deep_view(), e.1.deep_view()),
    decreases m.len(),
{
    let u = m.update(i, e);
    assert forall|a: int, b: int| 0 <= a < b < u.len() implies (#[trigger] u[a].0.deep_view()) != (
    #[trigger] u[b].0.deep_view()) by {
        assert(m[a].0.deep_view() != m[b].0.deep_view());
    }
    if i == m.len() - 1 {
        assert(u.drop_last() =~= m.drop_last());
        assert(table(u) =~= table(m).insert(e.0.deep_view(), e.1.deep_view()));
    } else {
        assert(u.drop_last() =~= m.drop_last().update(i, e));
        lemma_table_set(m.drop_last(), i, e);
        assert(m.last().0.deep_view() != e.0.deep_view());
        assert(table(u) =~= table(m).insert(e.0.deep_view(), e.1.deep_view()));
    }
}

pub proof fn lemma_table_push<K: DeepView, V: DeepView>(m: Seq<(K, V)>, e: (K, V))
    requires
        distinct_keys(m),
        !table(m).contains_key(e.0.deep_view()),
    ensures
        distinct_keys(m.push(e)),
        table(m.push(e)) == table(m).insert(e.0.deep_view(), e.1.deep_view()),
{
    let u = m.push(e);
    assert(u.drop_last() =~= m);
    assert forall|a: int, b: int| 0 <= a < b < u.len() implies (#[trigger] u[a].0.deep_view()) != (
    #[trigger] u[b].0.deep_view()) by {
        if b == m.len() {
            if u[a].0.deep_view() == e.0.deep_view() {
                lemma_table_at(m, a);
            }
        } else {
            assert(m[a].0.deep_view() != m[b].0.deep_view());
        }
    }
}

/// Position of `k` in the table, if present.
pub fn find_key<K: KeyEq, V>(m: &Vec<(K, V)>, k: &K) -> (r: Option<usize>)
    ensures
        match r {
            Some(i) => i < m.len() && m@[i as int].0.deep_view() == k.deep_view(),
            None => forall|i: int| 0 <= i < m.len() ==> (#[trigger] m@[i].0.deep_view()) != k.deep_view(),
        },
{
    let mut i: usize = 0;
    while i < m.len()
        invariant
            i <= m.len(),
            forall|j: int| 0 <= j < i ==> (#[trigger] m@[j].0.deep_view()) != k.deep_view(),
        decreases m.len() - i,
    {
        if m[i].0.key_eq(k) {
            return Some(i);
        }
        i += 1;
    }
    None
}

/// The value under `k`.
pub fn get_value<'a, K: KeyEq, V: DeepView>(m: &'a Vec<(K, V)>, k: &K) -> (r: Option<&'a V>)
    requires
        distinct_keys(m@),
    ensures
        match r {
            Some(v) => table(m@).contains_key(k.deep_view()) && table(m@)[k.deep_view()]
                == v.deep_view(),
            None => !table(m@).contains_key(k.deep_view()),
        },
{
    match find_key(m, k) {
        Some(i) => {
            proof {
                lemma_table_at(m@, i as int);
            }
            Some(&m[i].1)
        },
        None => {
            proof {
                lemma_table_missing(m@, k.deep_view());
            }
            None
        },
    }
}

/// The views of a sequence's elements.
pub open spec fn deep_seq<T: DeepView>(s: Seq<T>) -> Seq<T::V> {
    Seq::new(s.len(), |i: int| s[i].deep_view())
}

pub proof fn lemma_push_deep_view<T: DeepView>(a: Seq<T>, b: Seq<T>, x: T)
    requires
        b == a.push(x),
    ensures
        deep_seq(b) == deep_seq(a).push(x.deep_view()),
{
    assert(deep_seq(b) =~= deep_seq(a).push(x.deep_view()));
}

/// Copies a vector element by element.
pub fn clone_vec<T: DeepClone>(v: &Vec<T>) -> (r: Vec<T>)
    ensures
        r.deep_view() == v.deep_view(),
{
    let mut out: Vec<T> = Vec::new();
    let mut i: usize = 0;
    while i < v.len()
        invariant
            i <= v.len(),
            out.deep_view() == v.deep_view().take(i as int),
        decreases v.len() - i,
    {
        let ghost o = out@;
        out.push(v[i].deep_clone());
        proof {
            lemma_push_deep_view(o, out@, out@.last());
        }
        i += 1;
        assert(out.deep_view() =~= v.deep_view().take(i as int));
    }
    assert(v.deep_view().take(v.len() as int) =~= v.deep_view());
    out
}

/// Appends copies of `vals` to the end of `cur`.
pub fn extend_vec<T: DeepClone>(cur: &mut Vec<T>, vals: &Vec<T>)
    ensures
        final(cur).deep_view() == old(cur).deep_view() + vals.deep_view(),
{
    let ghost start = cur.deep_view();
    let mut i: usize = 0;
    while i < vals.len()
        invariant
            i <= vals.len(),
            cur.deep_view() == start + vals.deep_view().take(i as int),
        decreases vals.len() - i,
    {
        let ghost o = cur@;
        cur.push(vals[i].deep_clone());
        proof {
            lemma_push_deep_view(o, cur@, cur@.last());
        }
        i += 1;
        assert(cur.deep_view() =~= start + vals.deep_view().take(i as int));
    }
    assert(vals.deep_view().take(vals.len() as int) =~= vals.deep_view());
}

/// Whether `x` is in `v`.
pub fn vec_contains<T: KeyEq>(v: &Vec<T>, x: &T) -> (r: bool)
    ensures
        r == v.deep_view().contains(x.deep_view()),
{
    let mut i: usize = 0;
    while i < v.len()
        invariant
            i <= v.len(),
            forall|j: int| 0 <= j < i ==> v.deep_view()[j] != x.deep_view(),
        decreases v.len() - i,
    {
        if v[i].key_eq(x) {
            assert(v.deep_view()[i as int] == x.deep_view());
            return true;
        }
        i += 1;
    }
    false
}

/// Sets the value under `k`, adding the key if absent.
pub fn put<K: KeyEq, V: DeepView>(m: &mut Vec<(K, V)>, k: K, v: V)
    requires
        distinct_keys(old(m)@),
    ensures
        distinct_keys(final(m)@),
        table(final(m)@) == table(old(m)@).insert(k.deep_view(), v.deep_view()),
{
    match find_key(m, &k) {
        Some(i) => {
            let ghost before = m@;
            let _ = m.remove(i);
            m.insert(i, (k, v));
            proof {
                assert(m@ =~= before.update(i as int, (k, v)));
                lemma_table_set(before, i as int, (k, v));
            }
        },
        None => {
            proof {
                lemma_table_missing(m@, k.deep_view());
                lemma_table_push(m@, (k, v));
            }
            m.push((k, v));
        },
    }
}

/// Appends copies of `vals` to the list under `k`, creating it if absent.
pub fn extend_at<K: KeyEq, T: DeepClone>(m: &mut Vec<(K, Vec<T>)>, k: K, vals: &Vec<T>)
    requires
        distinct_keys(old(m)@),
    ensures
        distinct_keys(final(m)@),
        table(final(m)@) == table(old(m)@).insert(
            k.deep_view(),
            seq_or_empty(table(old(m)@), k.deep_view()) + vals.deep_view(),
        ),
{
    match find_key(m, &k) {
        Some(i) => {
            let ghost before = m@;
            proof {
                lemma_table_at(before, i as int);
            }
            let (_, mut cur) = m.remove(i);
            extend_vec(&mut cur, vals);
            m.insert(i, (k, cur));
            proof {
                assert(m@ =~= before.update(i as int, (k, cur)));
                lemma_table_set(before, i as int, (k, cur));
            }
        },
        None => {
            let cur = clone_vec(vals);
            proof {
                lemma_table_missing(m@, k.deep_view());
                lemma_table_push(m@, (k, cur));
                assert(cur.deep_view() =~= Seq::<T::V>::empty() + vals.deep_view());
            }
            m.push((k, cur));
        },
    }
}

/// Adds `x` to the list under `k` unless it is already there, creating the list if absent.
pub fn add_new_at<K: KeyEq, T: DeepClone + KeyEq>(m: &mut Vec<(K, Vec<T>)>, k: K, x: &T)
    requires
        distinct_keys(old(m)@),
    ensures
        distinct_keys(final(m)@),
        table(final(m)@) == table(old(m)@).insert(
            k.deep_view(),
            push_new(seq_or_empty(table(old(m)@), k.deep_view()), x.deep_view()),
        ),
{
    match find_key(m, &k) {
        Some(i) => {
            let ghost before = m@;
            proof {
                lemma_table_at(before, i as int);
            }
            let (_, mut cur) = m.remove(i);
            if !vec_contains(&cur, x) {
                let ghost c0 = cur.deep_view();
                cur.push(x.deep_clone());
                assert(cur.deep_view() =~= c0.push(x.deep_view()));
            }
            m.insert(i, (k, cur));
            proof {
                assert(m@ =~= before.update(i as int, (k, cur)));
                lemma_table_set(before, i as int, (k, cur));
            }
        },
        None => {
            let mut cur: Vec<T> = Vec::new();
            cur.push(x.deep_clone());
            proof {
                lemma_table_missing(m@, k.deep_view());
                lemma_table_push(m@, (k, cur));
                assert(cur.deep_view() =~= Seq::<T::V>::empty().push(x.deep_view()));
            }
            m.push((k, cur));
        },
    }
}

/// Copies a vector of characters.
pub fn clone_chars(v: &Vec<char>) -> (r: Vec<char>)
    ensures
        r@ == v@,
{
    let mut out: Vec<char> = Vec::new();
    let mut i: usize = 0;
    while i < v.len()
        invariant
            i <= v.len(),
            out@ == v@.take(i as int),
        decreases v.len() - i,
    {
        out.push(v[i]);
        i += 1;
        assert(out@ =~= v@.take(i as int));
    }
    assert(v@.take(v.len() as int) =~= v@);
    out
}

} // verus!
