use vstd::prelude::*;
use vstd::string::StrSliceExecFns;
use crate::msgs::classes::Class;
use crate::msgs::lectures::Lecture;
use crate::msgs::teachers::Teacher;

verus! {

/// `a` comes before `b` or equals it, character by character: the order in
/// which `String` compares, since UTF-8 keeps the order of the characters in
/// the order of their bytes.
pub open spec fn text_le(a: Seq<char>, b: Seq<char>) -> bool
    decreases a.len(),
{
    if a.len() == 0 {
        true
    } else if b.len() == 0 {
        false
    } else if a[0] != b[0] {
        (a[0] as int) < (b[0] as int)
    } else {
        text_le(a.drop_first(), b.drop_first())
    }
}

/// Of two texts one comes before the other or equals it.
pub proof fn lemma_text_le_total(a: Seq<char>, b: Seq<char>)
    ensures
        text_le(a, b) || text_le(b, a),
    decreases a.len(),
{
    if a.len() > 0 && b.len() > 0 {
        if a[0] == b[0] {
            lemma_text_le_total(a.drop_first(), b.drop_first());
        } else {
            assert((a[0] as int) != (b[0] as int));
        }
    }
}

/// The order of texts is transitive.
pub proof fn lemma_text_le_trans(a: Seq<char>, b: Seq<char>, c: Seq<char>)
    requires
        text_le(a, b),
        text_le(b, c),
    ensures
        text_le(a, c),
    decreases a.len(),
{
    if a.len() > 0 && b.len() > 0 && c.len() > 0 && a[0] == b[0] && b[0] == c[0] {
        lemma_text_le_trans(a.drop_first(), b.drop_first(), c.drop_first());
    }
}

/// Two texts that each come before or equal the other are the same.
pub proof fn lemma_text_le_antisym(a: Seq<char>, b: Seq<char>)
    requires
        text_le(a, b),
        text_le(b, a),
    ensures
        a == b,
    decreases a.len(),
{
    if a.len() > 0 && b.len() > 0 {
        lemma_text_le_antisym(a.drop_first(), b.drop_first());
        assert(a =~= seq![a[0]] + a.drop_first());
        assert(b =~= seq![b[0]] + b.drop_first());
    } else {
        assert(a =~= b);
    }
}

/// Whether `a` comes before `b` or equals it, character by character.
pub fn text_le_exec(a: &str, b: &str) -> (r: bool)
    ensures
        r == text_le(a@, b@),
{
    let n = a.unicode_len();
    let m = b.unicode_len();
    let mut i: usize = 0;
    proof {
        assert(a@.skip(0) =~= a@);
        assert(b@.skip(0) =~= b@);
    }
    while i < n && i < m
        invariant
            n == a@.len(),
            m == b@.len(),
            i <= n,
            i <= m,
            text_le(a@, b@) == text_le(a@.skip(i as int), b@.skip(i as int)),
        decreases n - i,
    {
        let x = a.get_char(i);
        let y = b.get_char(i);
        proof {
            assert(a@.skip(i as int)[0] == x);
            assert(b@.skip(i as int)[0] == y);
            assert(a@.skip(i as int).drop_first() =~= a@.skip(i + 1));
            assert(b@.skip(i as int).drop_first() =~= b@.skip(i + 1));
        }
        if x != y {
            return x < y;
        }
        i = i + 1;
    }
    i == n
}

/// Something that lists sort by a text key.
pub trait Keyed: Sized {
    spec fn key(&self) -> Seq<char>;

    fn key_text(&self) -> (r: String)
        ensures
            r@ == self.key(),
    ;

    fn same(&self) -> (r: Self)
        ensures
            r == *self,
    ;
}

impl Keyed for Lecture {
    open spec fn key(&self) -> Seq<char> {
        self.short_name@
    }

    fn key_text(&self) -> (r: String) {
        self.short_name.clone()
    }

    fn same(&self) -> (r: Self) {
        self.duplicate()
    }
}

impl Keyed for Class {
    open spec fn key(&self) -> Seq<char> {
        self.kademe@ + self.sube@
    }

    fn key_text(&self) -> (r: String) {
        self.label()
    }

    fn same(&self) -> (r: Self) {
        self.duplicate()
    }
}

impl Keyed for Teacher {
    open spec fn key(&self) -> Seq<char> {
        self.spec_label_full()
    }

    fn key_text(&self) -> (r: String) {
        self.label_full()
    }

    fn same(&self) -> (r: Self) {
        self.duplicate()
    }
}

/// The keys of `s` never go down.
pub open spec fn keys_sorted<T: Keyed>(s: Seq<T>) -> bool {
    forall|i: int, j: int| 0 <= i <= j < s.len() ==> text_le(s[i].key(), s[j].key())
}

/// The test that keeps the items with key `k`.
pub open spec fn key_is<T: Keyed>(k: Seq<char>) -> spec_fn(T) -> bool {
    |x: T| x.key() == k
}

/// `r` is `s` sorted by key, items with the same key keeping their order.
pub open spec fn sorted_by_key_of<T: Keyed>(r: Seq<T>, s: Seq<T>) -> bool {
    &&& r.len() == s.len()
    &&& keys_sorted(r)
    &&& forall|k: Seq<char>| #[trigger] r.filter(key_is::<T>(k)) == s.filter(key_is::<T>(k))
}

proof fn lemma_filter_none<T>(s: Seq<T>, p: spec_fn(T) -> bool)
    requires
        forall|k: int| 0 <= k < s.len() ==> !p(#[trigger] s[k]),
    ensures
        s.filter(p) == Seq::<T>::empty(),
    decreases s.len(),
{
    reveal(Seq::filter);
    if s.len() > 0 {
        assert forall|k: int| 0 <= k < s.drop_last().len() implies !p(#[trigger] s.drop_last()[k]) by {
            assert(s.drop_last()[k] == s[k]);
        }
        lemma_filter_none(s.drop_last(), p);
        assert(!p(s[s.len() - 1]));
    }
}

/// Inserting `x` after the items with keys up to its own and before those
/// with greater keys keeps `s` sorted and adds `x` at the end of its key.
proof fn lemma_insert_by_key<T: Keyed>(s: Seq<T>, p: int, x: T)
    requires
        keys_sorted(s),
        0 <= p <= s.len(),
        forall|k: int| 0 <= k < p ==> text_le((#[trigger] s[k]).key(), x.key()),
        forall|k: int| p <= k < s.len() ==> !text_le((#[trigger] s[k]).key(), x.key()),
    ensures
        keys_sorted(s.insert(p, x)),
        forall|k: Seq<char>|
            #[trigger] s.insert(p, x).filter(key_is::<T>(k)) == if x.key() == k {
                s.filter(key_is::<T>(k)).push(x)
            } else {
                s.filter(key_is::<T>(k))
            },
{
    let a = s.subrange(0, p);
    let b = s.subrange(p, s.len() as int);
    let t = s.insert(p, x);
    assert(t =~= a.push(x) + b);
    assert(s =~= a + b);
    assert forall|k: Seq<char>|
        #[trigger] t.filter(key_is::<T>(k)) == if x.key() == k {
            s.filter(key_is::<T>(k)).push(x)
        } else {
            s.filter(key_is::<T>(k))
        } by {
        Seq::filter_distributes_over_add(a.push(x), b, key_is::<T>(k));
        Seq::filter_distributes_over_add(a, b, key_is::<T>(k));
        a.lemma_filter_push(x, key_is::<T>(k));
        if x.key() == k {
            assert forall|m: int| 0 <= m < b.len() implies !key_is::<T>(k)(#[trigger] b[m]) by {
                assert(b[m] == s[p + m]);
                lemma_text_le_total(s[p + m].key(), x.key());
                if s[p + m].key() == x.key() {
                    assert(!text_le(s[p + m].key(), x.key()));
                    lemma_text_le_total(x.key(), x.key());
                }
            }
            lemma_filter_none(b, key_is::<T>(k));
            assert(s.filter(key_is::<T>(k)) =~= a.filter(key_is::<T>(k)));
            assert(t.filter(key_is::<T>(k)) =~= a.filter(key_is::<T>(k)).push(x));
        }
    }
    assert forall|i: int, j: int| 0 <= i <= j < t.len() implies text_le(t[i].key(), t[j].key()) by {
        if j < p {
        } else if j == p {
            assert(t[j] == x);
            if i < p {
                assert(t[i] == s[i]);
            } else {
                lemma_text_le_total(x.key(), x.key());
            }
        } else {
            assert(t[j] == s[j - 1]);
            lemma_text_le_total(s[j - 1].key(), x.key());
            if i < p {
                assert(t[i] == s[i]);
            } else if i == p {
                assert(t[i] == x);
            } else {
                assert(t[i] == s[i - 1]);
            }
        }
    }
}

/// `v` sorted by key; items with the same key keep their order.
pub fn sort_by_key<T: Keyed>(v: &Vec<T>) -> (r: Vec<T>)
    ensures
        sorted_by_key_of(r@, v@),
{
    let mut r: Vec<T> = Vec::new();
    let mut i: usize = 0;
    proof {
        assert(v@.take(0) =~= Seq::<T>::empty());
        reveal(Seq::filter);
    }
    while i < v.len()
        invariant
            i <= v@.len(),
            sorted_by_key_of(r@, v@.take(i as int)),
        decreases v.len() - i,
    {
        let x = v[i].same();
        let xk = x.key_text();
        let mut p: usize = 0;
        while p < r.len()
            invariant
                p <= r@.len(),
                xk@ == x.key(),
                keys_sorted(r@),
                forall|k: int| 0 <= k < p ==> text_le((#[trigger] r@[k]).key(), x.key()),
            ensures
                p <= r@.len(),
                forall|k: int| 0 <= k < p ==> text_le((#[trigger] r@[k]).key(), x.key()),
                p == r@.len() || !text_le(r@[p as int].key(), x.key()),
            decreases r.len() - p,
        {
            let rk = r[p].key_text();
            if !text_le_exec(rk.as_str(), xk.as_str()) {
                break;
            }
            p = p + 1;
        }
        let ghost s = r@;
        let ghost before = v@.take(i as int);
        proof {
            assert forall|k: int| p <= k < s.len() implies !text_le((#[trigger] s[k]).key(), x.key()) by {
                if text_le(s[k].key(), x.key()) {
                    lemma_text_le_trans(s[p as int].key(), s[k].key(), x.key());
                }
            }
            lemma_insert_by_key(s, p as int, x);
            assert(v@.take(i + 1) =~= before.push(x));
            assert forall|k: Seq<char>| #[trigger] before.push(x).filter(key_is::<T>(k)) == if x.key() == k {
                before.filter(key_is::<T>(k)).push(x)
            } else {
                before.filter(key_is::<T>(k))
            } by {
                before.lemma_filter_push(x, key_is::<T>(k));
            }
        }
        r.insert(p, x);
        proof {
            assert forall|k: Seq<char>| #[trigger] r@.filter(key_is::<T>(k)) == v@.take(i + 1).filter(key_is::<T>(k)) by {
                assert(s.filter(key_is::<T>(k)) == before.filter(key_is::<T>(k)));
            }
        }
        i = i + 1;
    }
    assert(v@.take(v@.len() as int) =~= v@);
    r
}


/// Sorting keeps exactly the items it was given.
pub proof fn lemma_sorted_same_items<T: Keyed>(r: Seq<T>, s: Seq<T>, x: T)
    requires
        sorted_by_key_of(r, s),
    ensures
        r.contains(x) <==> s.contains(x),
{
    broadcast use vstd::seq_lib::group_filter_ensures;
    let p = key_is::<T>(x.key());
    assert(r.filter(p) == s.filter(p));
    if r.contains(x) {
        let i = choose|i: int| 0 <= i < r.len() && r[i] == x;
        r.lemma_filter_contains(p, i);
        let j = choose|j: int| 0 <= j < s.filter(p).len() && s.filter(p)[j] == x;
        s.lemma_filter_contains_rev(p, x);
    }
    if s.contains(x) {
        let i = choose|i: int| 0 <= i < s.len() && s[i] == x;
        s.lemma_filter_contains(p, i);
        r.lemma_filter_contains_rev(p, x);
    }
}

} // verus!
