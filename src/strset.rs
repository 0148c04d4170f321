use vstd::prelude::*;

use crate::text::views;

verus! {

/// Code-point order on texts, which is the order of `String`'s `Ord` (UTF-8 bytes compare
/// as code points do).
pub open spec fn lex_lt(a: Seq<char>, b: Seq<char>) -> bool
    decreases a.len(),
{
    if a.len() == 0 {
        b.len() > 0
    } else if b.len() == 0 {
        false
    } else if a[0] != b[0] {
        a[0] < b[0]
    } else {
        lex_lt(a.drop_first(), b.drop_first())
    }
}

pub proof fn lemma_lex_trans(a: Seq<char>, b: Seq<char>, c: Seq<char>)
    requires
        lex_lt(a, b),
        lex_lt(b, c),
    ensures
        lex_lt(a, c),
    decreases a.len(),
{
    if a.len() > 0 && b.len() > 0 && c.len() > 0 && a[0] == b[0] && b[0] == c[0] {
        lemma_lex_trans(a.drop_first(), b.drop_first(), c.drop_first());
    }
}

pub proof fn lemma_lex_total(a: Seq<char>, b: Seq<char>)
    ensures
        a != b ==> (lex_lt(a, b) || lex_lt(b, a)),
        !(lex_lt(a, b) && lex_lt(b, a)),
        !lex_lt(a, a),
    decreases a.len(),
{
    if a.len() == 0 || b.len() == 0 {
        if a.len() == 0 && b.len() == 0 {
            assert(a =~= b);
        }
    } else if a[0] == b[0] {
        lemma_lex_total(a.drop_first(), b.drop_first());
        if a.drop_first() == b.drop_first() {
            assert(a =~= seq![a[0]] + a.drop_first());
            assert(b =~= seq![b[0]] + b.drop_first());
        }
    } else {
    }
    if a.len() > 0 {
        lemma_lex_total(a.drop_first(), a.drop_first());
    }
}

/// Compares two texts in code-point order.
pub fn text_lt(a: &str, b: &str) -> (r: bool)
    ensures
        r == lex_lt(a@, b@),
{
    let n = a.unicode_len();
    let m = b.unicode_len();
    proof {
        assert(a@.subrange(0, n as int) =~= a@);
        assert(b@.subrange(0, m as int) =~= b@);
    }
    let mut i: usize = 0;
    while i < n && i < m && a.get_char(i) == b.get_char(i)
        invariant
            n == a@.len(),
            m == b@.len(),
            i <= n,
            i <= m,
            lex_lt(a@, b@) == lex_lt(a@.subrange(i as int, n as int), b@.subrange(i as int, m as int)),
        decreases n - i,
    {
        proof {
            assert(a@.subrange(i as int, n as int).drop_first() =~= a@.subrange(i + 1, n as int));
            assert(b@.subrange(i as int, m as int).drop_first() =~= b@.subrange(i + 1, m as int));
        }
        i = i + 1;
    }
    if i == n {
        i < m
    } else if i == m {
        false
    } else {
        a.get_char(i) < b.get_char(i)
    }
}

/// Strictly increasing in code-point order: sorted, and no text twice.
pub open spec fn sorted(s: Seq<Seq<char>>) -> bool {
    forall|i: int, j: int| 0 <= i < j < s.len() ==> lex_lt(#[trigger] s[i], #[trigger] s[j])
}

/// A set of texts, kept in code-point order.
#[derive(Debug, Clone)]
pub struct TextSet {
    pub items: Vec<String>,
}

impl TextSet {
    /// What the set holds, in order.
    pub open spec fn view_seq(&self) -> Seq<Seq<char>> {
        views(self.items@)
    }

    /// What the set holds.
    pub open spec fn view_set(&self) -> Set<Seq<char>> {
        self.view_seq().to_set()
    }

    pub open spec fn wf(&self) -> bool {
        sorted(self.view_seq())
    }

    pub fn new() -> (r: TextSet)
        ensures
            r.wf(),
            r.view_seq() == Seq::<Seq<char>>::empty(),
    {
        TextSet { items: Vec::new() }
    }

    /// A copy of the set.
    pub fn copy(&self) -> (r: TextSet)
        ensures
            r.view_seq() == self.view_seq(),
    {
        let mut items: Vec<String> = Vec::new();
        let mut i: usize = 0;
        while i < self.items.len()
            invariant
                i <= self.items@.len(),
                views(items@) == views(self.items@.subrange(0, i as int)),
            decreases self.items@.len() - i,
        {
            let ghost before = items@;
            items.push(self.items[i].clone());
            proof {
                assert(views(items@) =~= views(before).push(self.items@[i as int]@));
                assert(self.items@.subrange(0, i + 1) =~= self.items@.subrange(0, i as int).push(self.items@[i as int]));
            }
            i = i + 1;
        }
        proof {
            assert(self.items@.subrange(0, self.items@.len() as int) =~= self.items@);
        }
        TextSet { items }
    }

    /// Removes every text of `xs`.
    pub fn remove_all(&mut self, xs: &Vec<String>)
        requires
            old(self).wf(),
        ensures
            final(self).wf(),
            final(self).view_set() == old(self).view_set().difference(views(xs@).to_set()),
    {
        let ghost s0 = self.view_seq();
        let mut keep: Vec<String> = Vec::new();
        let mut i: usize = 0;
        while i < self.items.len()
            invariant
                s0 == self.view_seq(),
                sorted(s0),
                i <= s0.len(),
                sorted(views(keep@)),
                forall|k: int| 0 <= k < keep@.len() ==> exists|j: int| 0 <= j < i && #[trigger] views(keep@)[k] == s0[j],
                forall|k: int| 0 <= k < keep@.len() ==> forall|j: int| i <= j < s0.len() ==> lex_lt(#[trigger] views(keep@)[k], #[trigger] s0[j]),
                views(keep@).to_set() == s0.subrange(0, i as int).to_set().difference(views(xs@).to_set()),
            decreases s0.len() - i,
        {
            let x = &self.items[i];
            let ghost kv = views(keep@);
            let drop = contains_str(xs, x.as_str());
            if !drop {
                keep.push(x.clone());
                proof {
                    assert(views(keep@) =~= kv.push(s0[i as int]));
                    assert forall|k: int| 0 <= k < keep@.len() implies forall|j: int| i + 1 <= j < s0.len() ==> lex_lt(#[trigger] views(keep@)[k], #[trigger] s0[j]) by {
                        assert forall|j: int| i + 1 <= j < s0.len() implies lex_lt(#[trigger] views(keep@)[k], #[trigger] s0[j]) by {
                            if k < kv.len() {
                                assert(lex_lt(kv[k], s0[j]));
                            }
                        }
                    }
                }
            }
            proof {
                assert(s0.subrange(0, i + 1) =~= s0.subrange(0, i as int).push(s0[i as int]));
                s0.subrange(0, i as int).lemma_push_to_set_commute(s0[i as int]);
                if !drop {
                    kv.lemma_push_to_set_commute(s0[i as int]);
                    assert(views(keep@).to_set() =~= s0.subrange(0, i + 1).to_set().difference(views(xs@).to_set()));
                } else {
                    assert(views(keep@).to_set() =~= s0.subrange(0, i + 1).to_set().difference(views(xs@).to_set()));
                }
            }
            i = i + 1;
        }
        proof {
            assert(s0.subrange(0, s0.len() as int) =~= s0);
        }
        self.items = keep;
    }

    pub fn len(&self) -> (r: usize)
        ensures
            r == self.view_seq().len(),
    {
        self.items.len()
    }

    /// Whether `x` is in the set.
    pub fn contains(&self, x: &str) -> (r: bool)
        ensures
            r == self.view_seq().contains(x@),
    {
        let mut i: usize = 0;
        while i < self.items.len()
            invariant
                i <= self.items@.len(),
                forall|k: int| 0 <= k < i ==> self.items@[k]@ != x@,
            decreases self.items@.len() - i,
        {
            if text_eq(self.items[i].as_str(), x) {
                proof {
                    assert(self.view_seq()[i as int] == x@);
                }
                return true;
            }
            i = i + 1;
        }
        false
    }

    /// Adds `x`; returns whether it was new.
    pub fn insert(&mut self, x: String) -> (r: bool)
        requires
            old(self).wf(),
        ensures
            final(self).wf(),
            r == !old(self).view_seq().contains(x@),
            final(self).view_set() == old(self).view_set().insert(x@),
            !r ==> final(self).view_seq() == old(self).view_seq(),
    {
        let ghost s0 = self.view_seq();
        let mut i: usize = 0;
        while i < self.items.len() && text_lt(self.items[i].as_str(), x.as_str())
            invariant
                s0 == self.view_seq(),
                sorted(s0),
                i <= s0.len(),
                forall|k: int| 0 <= k < i ==> lex_lt(#[trigger] s0[k], x@),
            decreases s0.len() - i,
        {
            i = i + 1;
        }
        proof {
            assert forall|k: int| 0 <= k < i implies s0[k] != x@ by {
                lemma_lex_total(x@, x@);
            }
        }
        if i < self.items.len() && text_eq(self.items[i].as_str(), x.as_str()) {
            proof {
                assert(s0[i as int] == x@);
            }
            return false;
        }
        proof {
            assert forall|k: int| i <= k < s0.len() implies lex_lt(x@, #[trigger] s0[k]) by {
                lemma_lex_total(x@, s0[i as int]);
                if k > i {
                    lemma_lex_trans(x@, s0[i as int], s0[k]);
                }
            }
            assert(!s0.contains(x@)) by {
                if s0.contains(x@) {
                    let k = choose|k: int| 0 <= k < s0.len() && s0[k] == x@;
                    lemma_lex_total(x@, x@);
                }
            }
        }
        self.items.insert(i, x);
        proof {
            let s1 = self.view_seq();
            assert(s1 =~= s0.insert(i as int, x@));
            assert forall|a: int, b: int| 0 <= a < b < s1.len() implies lex_lt(#[trigger] s1[a], #[trigger] s1[b]) by {
                if b < i {
                } else if a < i && b == i {
                } else if a < i {
                    lemma_lex_trans(s0[a], x@, s0[b - 1]);
                } else if a == i {
                } else {
                }
            }
            assert(s1.to_set() =~= s0.to_set().insert(x@)) by {
                assert forall|y: Seq<char>| s1.to_set().contains(y) <==> s0.to_set().insert(x@).contains(y) by {
                    if s1.contains(y) {
                        let k = choose|k: int| 0 <= k < s1.len() && s1[k] == y;
                        if k < i {
                            assert(s0[k] == y);
                        } else if k > i {
                            assert(s0[k - 1] == y);
                        }
                    }
                    if s0.contains(y) {
                        let k = choose|k: int| 0 <= k < s0.len() && s0[k] == y;
                        if k < i {
                            assert(s1[k] == y);
                        } else {
                            assert(s1[k + 1] == y);
                        }
                    }
                    if y == x@ {
                        assert(s1[i as int] == y);
                    }
                }
            }
        }
        true
    }
}

/// Whether `xs` holds `x`.
pub fn contains_str(xs: &Vec<String>, x: &str) -> (r: bool)
    ensures
        r == views(xs@).contains(x@),
{
    let mut i: usize = 0;
    while i < xs.len()
        invariant
            i <= xs@.len(),
            forall|j: int| 0 <= j < i ==> xs@[j]@ != x@,
        decreases xs@.len() - i,
    {
        if text_eq(xs[i].as_str(), x) {
            proof {
                assert(views(xs@)[i as int] == x@);
            }
            return true;
        }
        i = i + 1;
    }
    false
}

/// Whether two texts are equal.
pub fn text_eq(a: &str, b: &str) -> (r: bool)
    ensures
        r == (a@ == b@),
{
    let n = a.unicode_len();
    if n != b.unicode_len() {
        return false;
    }
    let mut i: usize = 0;
    while i < n
        invariant
            n == a@.len(),
            n == b@.len(),
            i <= n,
            a@.subrange(0, i as int) == b@.subrange(0, i as int),
        decreases n - i,
    {
        if a.get_char(i) != b.get_char(i) {
            return false;
        }
        proof {
            assert(a@.subrange(0, i + 1) =~= a@.subrange(0, i as int).push(a@[i as int]));
            assert(b@.subrange(0, i + 1) =~= b@.subrange(0, i as int).push(b@[i as int]));
        }
        i = i + 1;
    }
    proof {
        assert(a@.subrange(0, n as int) =~= a@);
        assert(b@.subrange(0, n as int) =~= b@);
    }
    true
}

} // verus!
