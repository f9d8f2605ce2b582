//! Ordered attribute mappings for the root element of a view.
//!
//! Keys appear at most once, in insertion order. A key that is present with
//! no value (`None`) is distinct from a key that is absent altogether.

use vstd::prelude::*;

verus! {

/// Snapshot of the attributes of one element: an ordered mapping from
/// attribute name to an optional value.
pub struct Attrs {
    pairs: Vec<(String, Option<String>)>,
}

impl View for Attrs {
    type V = Seq<(Seq<char>, Option<Seq<char>>)>;

    closed spec fn view(&self) -> Seq<(Seq<char>, Option<Seq<char>>)> {
        self.pairs.deep_view()
    }
}

/// The value bound to `key` in the pair sequence `s`: `None` if the key is
/// absent, `Some(v)` if it is present with optional value `v`.
pub open spec fn attr_lookup(
    s: Seq<(Seq<char>, Option<Seq<char>>)>,
    key: Seq<char>,
) -> Option<Option<Seq<char>>>
    decreases s.len(),
{
    if s.len() == 0 {
        None
    } else if s[0].0 == key {
        Some(s[0].1)
    } else {
        attr_lookup(s.drop_first(), key)
    }
}

/// The pair sequence `s` with `key` bound to `value`: replaced in place if
/// the key is present, appended at the end if it is absent.
pub open spec fn attr_set(
    s: Seq<(Seq<char>, Option<Seq<char>>)>,
    key: Seq<char>,
    value: Option<Seq<char>>,
) -> Seq<(Seq<char>, Option<Seq<char>>)>
    decreases s.len(),
{
    if s.len() == 0 {
        seq![(key, value)]
    } else if s[0].0 == key {
        seq![(key, value)] + s.drop_first()
    } else {
        seq![s[0]] + attr_set(s.drop_first(), key, value)
    }
}

proof fn lemma_lookup_absent(s: Seq<(Seq<char>, Option<Seq<char>>)>, key: Seq<char>)
    requires
        forall|j: int| 0 <= j < s.len() ==> (#[trigger] s[j]).0 != key,
    ensures
        attr_lookup(s, key) is None,
    decreases s.len(),
{
    if s.len() > 0 {
        lemma_lookup_absent(s.drop_first(), key);
    }
}

proof fn lemma_lookup_found(s: Seq<(Seq<char>, Option<Seq<char>>)>, key: Seq<char>, i: int)
    requires
        0 <= i < s.len(),
        s[i].0 == key,
        forall|j: int| 0 <= j < i ==> (#[trigger] s[j]).0 != key,
    ensures
        attr_lookup(s, key) == Some(s[i].1),
    decreases i,
{
    if i > 0 {
        lemma_lookup_found(s.drop_first(), key, i - 1);
    }
}

proof fn lemma_set_absent(
    s: Seq<(Seq<char>, Option<Seq<char>>)>,
    key: Seq<char>,
    value: Option<Seq<char>>,
)
    requires
        forall|j: int| 0 <= j < s.len() ==> (#[trigger] s[j]).0 != key,
    ensures
        attr_set(s, key, value) == s.push((key, value)),
    decreases s.len(),
{
    if s.len() == 0 {
        assert(attr_set(s, key, value) =~= s.push((key, value)));
    } else {
        lemma_set_absent(s.drop_first(), key, value);
        assert(attr_set(s, key, value) =~= s.push((key, value)));
    }
}

proof fn lemma_set_found(
    s: Seq<(Seq<char>, Option<Seq<char>>)>,
    key: Seq<char>,
    value: Option<Seq<char>>,
    i: int,
)
    requires
        0 <= i < s.len(),
        s[i].0 == key,
        forall|j: int| 0 <= j < i ==> (#[trigger] s[j]).0 != key,
    ensures
        attr_set(s, key, value) == s.update(i, (key, value)),
    decreases i,
{
    if i == 0 {
        assert(attr_set(s, key, value) =~= s.update(0, (key, value)));
    } else {
        lemma_set_found(s.drop_first(), key, value, i - 1);
        assert(attr_set(s, key, value) =~= s.update(i, (key, value)));
    }
}

/// Whether two optional attribute values are equal.
pub fn option_str_eq(a: &Option<String>, b: &Option<String>) -> (r: bool)
    ensures
        r == (a.deep_view() == b.deep_view()),
{
    match (a, b) {
        (Option::None, Option::None) => true,
        (Option::Some(x), Option::Some(y)) => *x == *y,
        _ => false,
    }
}

/// A copy of an optional attribute value.
pub fn option_str_clone(v: &Option<String>) -> (r: Option<String>)
    ensures
        r == *v,
{
    match v {
        Option::None => Option::None,
        Option::Some(s) => Option::Some(s.clone()),
    }
}

impl Attrs {
    /// Keys are pairwise distinct.
    pub open spec fn wf(&self) -> bool {
        forall|i: int, j: int|
            0 <= i < j < self@.len() ==> (#[trigger] self@[i]).0 != (#[trigger] self@[j]).0
    }

    /// An empty attribute mapping.
    pub fn new() -> (r: Attrs)
        ensures
            r@ == Seq::<(Seq<char>, Option<Seq<char>>)>::empty(),
            r.wf(),
    {
        let r = Attrs { pairs: Vec::new() };
        proof {
            assert(r@ =~= Seq::<(Seq<char>, Option<Seq<char>>)>::empty());
        }
        r
    }

    /// The number of attributes.
    pub fn len(&self) -> (r: usize)
        ensures
            r == self@.len(),
    {
        self.pairs.len()
    }

    /// The key and value stored at position `i`.
    pub fn pair_at(&self, i: usize) -> (r: &(String, Option<String>))
        requires
            i < self@.len(),
        ensures
            r.deep_view() == self@[i as int],
    {
        &self.pairs[i]
    }

    /// The value bound to `key`, or `None` if the key is absent.
    pub fn get(&self, key: &String) -> (r: Option<&Option<String>>)
        ensures
            match r {
                Option::None => attr_lookup(self@, key@) is None,
                Option::Some(v) => attr_lookup(self@, key@) == Some(v.deep_view()),
            },
    {
        let n = self.pairs.len();
        let mut i: usize = 0;
        while i < n
            invariant
                n == self@.len(),
                i <= n,
                forall|j: int| 0 <= j < i ==> (#[trigger] self@[j]).0 != key@,
            decreases n - i,
        {
            if self.pairs[i].0 == *key {
                proof {
                    lemma_lookup_found(self@, key@, i as int);
                }
                return Option::Some(&self.pairs[i].1);
            }
            i += 1;
        }
        proof {
            lemma_lookup_absent(self@, key@);
        }
        Option::None
    }

    /// Binds `key` to `value`: replaces the stored value if the key is
    /// present, appends the pair otherwise. Insertion order of distinct
    /// keys is preserved.
    pub fn set(&mut self, key: String, value: Option<String>)
        requires
            old(self).wf(),
        ensures
            final(self).wf(),
            final(self)@ == attr_set(old(self)@, key@, value.deep_view()),
    {
        let n = self.pairs.len();
        let mut i: usize = 0;
        while i < n
            invariant
                n == self@.len(),
                i <= n,
                *self == *old(self),
                old(self).wf(),
                forall|j: int| 0 <= j < i ==> (#[trigger] self@[j]).0 != key@,
            decreases n - i,
        {
            if self.pairs[i].0 == key {
                proof {
                    lemma_set_found(self@, key@, value.deep_view(), i as int);
                }
                let ghost s1 = self@;
                self.pairs[i] = (key, value);
                proof {
                    assert(self@ =~= s1.update(i as int, (key@, value.deep_view())));
                    assert(s1[i as int].0 == key@);
                    assert forall|a: int, b: int| 0 <= a < b < self@.len() implies (
                    #[trigger] self@[a]).0 != (#[trigger] self@[b]).0 by {
                        assert(s1[a].0 != s1[b].0);
                        assert(self@[a].0 == s1[a].0);
                        assert(self@[b].0 == s1[b].0);
                    }
                }
                return;
            }
            i += 1;
        }
        proof {
            lemma_set_absent(self@, key@, value.deep_view());
        }
        self.pairs.push((key, value));
        proof {
            assert(self@ =~= attr_set(old(self)@, key@, value.deep_view()));
        }
    }

    /// Whether two snapshots are exactly equal: same keys in the same order,
    /// and for each key the same optional value.
    pub fn eq_attrs(&self, other: &Attrs) -> (r: bool)
        ensures
            r == (self@ == other@),
    {
        let n = self.pairs.len();
        if n != other.pairs.len() {
            proof {
                assert(self@.len() != other@.len());
            }
            return false;
        }
        let mut i: usize = 0;
        while i < n
            invariant
                n == self@.len(),
                n == other@.len(),
                i <= n,
                forall|j: int| 0 <= j < i ==> self@[j] == other@[j],
            decreases n - i,
        {
            let sp = &self.pairs[i];
            let op = &other.pairs[i];
            proof {
                assert(self@[i as int] == sp.deep_view());
                assert(other@[i as int] == op.deep_view());
            }
            if !(sp.0 == op.0) {
                proof {
                    assert(self@[i as int].0 != other@[i as int].0);
                }
                return false;
            }
            if !option_str_eq(&sp.1, &op.1) {
                proof {
                    assert(self@[i as int].1 != other@[i as int].1);
                }
                return false;
            }
            i += 1;
        }
        proof {
            assert(self@ =~= other@);
        }
        true
    }

    /// A copy of the snapshot.
    pub fn clone_attrs(&self) -> (r: Attrs)
        ensures
            r@ == self@,
            r.wf() == self.wf(),
    {
        let n = self.pairs.len();
        let mut pairs: Vec<(String, Option<String>)> = Vec::new();
        let mut i: usize = 0;
        while i < n
            invariant
                n == self@.len(),
                i <= n,
                pairs.deep_view().len() == i,
                forall|t: int| 0 <= t < i ==> #[trigger] pairs.deep_view()[t] == self@[t],
            decreases n - i,
        {
            let p = &self.pairs[i];
            let c = (p.0.clone(), option_str_clone(&p.1));
            proof {
                assert(c == *p);
                assert(c.deep_view() == self@[i as int]);
            }
            let ghost dv = pairs.deep_view();
            pairs.push(c);
            proof {
                assert forall|t: int| 0 <= t < i + 1 implies #[trigger] pairs.deep_view()[t]
                    == self@[t] by {
                    if t < i {
                        assert(pairs.deep_view()[t] == dv[t]);
                    } else {
                        assert(pairs.deep_view()[t] == c.deep_view());
                    }
                }
            }
            i += 1;
        }
        let r = Attrs { pairs };
        proof {
            assert(r@ =~= self@);
        }
        r
    }
}

} // verus!
