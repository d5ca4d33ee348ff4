//! Ordered, deduplicated label sets.
//!
//! A `VariableSet` is an immutable ordered sequence of distinct labels,
//! shared by reference among the values that track them.  Its view is the
//! sequence of label character-sequences.
use vstd::prelude::*;

verus! {

/// No label occurs twice.
pub open spec fn unique_labels(s: Seq<Seq<char>>) -> bool {
    forall|i: int, j: int| 0 <= i < j < s.len() ==> s[i] != s[j]
}

/// `a`'s labels all occur in `b`.
pub open spec fn subset_labels(a: Seq<Seq<char>>, b: Seq<Seq<char>>) -> bool {
    forall|i: int| 0 <= i < a.len() ==> b.contains(a[i])
}

/// The labels of `b` that are not in `a`, in `b`'s order.
pub open spec fn extras(a: Seq<Seq<char>>, b: Seq<Seq<char>>) -> Seq<Seq<char>>
    decreases b.len(),
{
    if b.len() == 0 {
        Seq::empty()
    } else {
        extras(a, b.drop_last()) + (if a.contains(b.last()) {
            Seq::<Seq<char>>::empty()
        } else {
            seq![b.last()]
        })
    }
}

/// The ordered union: `a`'s labels in their order, then the labels of `b`
/// not already present, in `b`'s order.
pub open spec fn union_of(a: Seq<Seq<char>>, b: Seq<Seq<char>>) -> Seq<Seq<char>> {
    a + extras(a, b)
}

/// A label sequence of `extras(a, b)` is a label of `b` that is not in `a`.
pub proof fn lemma_extras_contains(a: Seq<Seq<char>>, b: Seq<Seq<char>>, x: Seq<char>)
    ensures
        extras(a, b).contains(x) <==> (b.contains(x) && !a.contains(x)),
    decreases b.len(),
{
    if b.len() == 0 {
        assert(!b.contains(x));
    } else {
        lemma_extras_contains(a, b.drop_last(), x);
        assert(b.contains(x) <==> (b.drop_last().contains(x) || b.last() == x)) by {
            if b.contains(x) {
                let i = choose|i: int| 0 <= i < b.len() && b[i] == x;
                if i < b.len() - 1 {
                    assert(b.drop_last()[i] == x);
                }
            }
            if b.drop_last().contains(x) {
                let i = choose|i: int| 0 <= i < b.drop_last().len() && b.drop_last()[i] == x;
                assert(b[i] == x);
            }
        }
        if extras(a, b).contains(x) {
            let i = choose|i: int| 0 <= i < extras(a, b).len() && extras(a, b)[i] == x;
            if i < extras(a, b.drop_last()).len() {
                assert(extras(a, b.drop_last())[i] == x);
            }
        }
        if b.contains(x) && !a.contains(x) {
            if b.last() == x {
                assert(extras(a, b).last() == x);
                assert(extras(a, b).contains(x));
            } else {
                assert(extras(a, b.drop_last()).contains(x));
                let i = choose|i: int|
                    0 <= i < extras(a, b.drop_last()).len() && extras(a, b.drop_last())[i] == x;
                assert(extras(a, b)[i] == x);
            }
        }
    }
}

/// The union keeps `a` as a prefix and contains exactly the labels of both.
pub proof fn lemma_union_contains(a: Seq<Seq<char>>, b: Seq<Seq<char>>, x: Seq<char>)
    ensures
        union_of(a, b).contains(x) <==> (a.contains(x) || b.contains(x)),
{
    lemma_extras_contains(a, b, x);
    if a.contains(x) {
        let i = choose|i: int| 0 <= i < a.len() && a[i] == x;
        assert(union_of(a, b)[i] == x);
    }
    if extras(a, b).contains(x) {
        let i = choose|i: int| 0 <= i < extras(a, b).len() && extras(a, b)[i] == x;
        assert(union_of(a, b)[a.len() + i] == x);
    }
    if union_of(a, b).contains(x) {
        let i = choose|i: int| 0 <= i < union_of(a, b).len() && union_of(a, b)[i] == x;
        if i < a.len() {
            assert(a[i] == x);
        } else {
            assert(extras(a, b)[i - a.len()] == x);
        }
    }
}

/// The extras are pairwise distinct when `b`'s labels are.
proof fn lemma_extras_unique(a: Seq<Seq<char>>, b: Seq<Seq<char>>)
    requires
        unique_labels(b),
    ensures
        unique_labels(extras(a, b)),
        forall|x: Seq<char>| extras(a, b).contains(x) ==> !a.contains(x),
    decreases b.len(),
{
    if b.len() == 0 {
    } else {
        assert(unique_labels(b.drop_last())) by {
            assert(forall|i: int| 0 <= i < b.len() - 1 ==> b.drop_last()[i] == b[i]);
        }
        lemma_extras_unique(a, b.drop_last());
        assert forall|x: Seq<char>| extras(a, b).contains(x) implies !a.contains(x) by {
            lemma_extras_contains(a, b, x);
        }
        if !a.contains(b.last()) {
            let e = extras(a, b.drop_last());
            assert(!e.contains(b.last())) by {
                lemma_extras_contains(a, b.drop_last(), b.last());
                if b.drop_last().contains(b.last()) {
                    let i = choose|i: int|
                        0 <= i < b.drop_last().len() && b.drop_last()[i] == b.last();
                    assert(b[i] == b[b.len() - 1]);
                }
            }
            assert forall|i: int, j: int|
                0 <= i < j < extras(a, b).len() implies extras(a, b)[i] != extras(a, b)[j] by {
                if j < e.len() {
                } else {
                    assert(extras(a, b)[j] == b.last());
                    assert(e[i] == extras(a, b)[i]);
                    assert(e.contains(e[i]));
                }
            }
        }
    }
}

/// The union of two unique label sequences is unique.
pub proof fn lemma_union_unique(a: Seq<Seq<char>>, b: Seq<Seq<char>>)
    requires
        unique_labels(a),
        unique_labels(b),
    ensures
        unique_labels(union_of(a, b)),
{
    lemma_extras_unique(a, b);
    assert forall|i: int, j: int|
        0 <= i < j < union_of(a, b).len() implies union_of(a, b)[i] != union_of(a, b)[j] by {
        let u = union_of(a, b);
        if i < a.len() && j >= a.len() {
            assert(u[j] == extras(a, b)[j - a.len()]);
            assert(extras(a, b).contains(extras(a, b)[j - a.len()]));
            assert(a.contains(a[i]));
        }
    }
}

/// When `b`'s labels all occur in `a`, the union is `a` itself.
pub proof fn lemma_union_subset(a: Seq<Seq<char>>, b: Seq<Seq<char>>)
    requires
        subset_labels(b, a),
    ensures
        union_of(a, b) == a,
    decreases b.len(),
{
    if b.len() == 0 {
        assert(union_of(a, b) =~= a);
    } else {
        assert(subset_labels(b.drop_last(), a)) by {
            assert(forall|i: int| 0 <= i < b.len() - 1 ==> b.drop_last()[i] == b[i]);
        }
        lemma_union_subset(a, b.drop_last());
        assert(b.contains(b.last()));
        assert(a.contains(b.last()));
        assert(union_of(a, b) =~= union_of(a, b.drop_last()));
    }
}

/// In a unique label sequence the position of a label is the one the
/// sequence's `index_of` chooses.
pub proof fn lemma_unique_index(s: Seq<Seq<char>>, i: int)
    requires
        unique_labels(s),
        0 <= i < s.len(),
    ensures
        s.contains(s[i]),
        s.index_of(s[i]) == i,
{
    assert(s.contains(s[i]));
    let j = s.index_of(s[i]);
    assert(0 <= j < s.len() && s[j] == s[i]) by {
        assert(exists|k: int| 0 <= k < s.len() && s[k] == s[i]);
    }
    if i < j {
        assert(s[i] != s[j]);
    }
    if j < i {
        assert(s[j] != s[i]);
    }
}

/// An ordered, deduplicated sequence of string labels.
#[derive(Debug)]
pub struct VariableSet {
    labels: Vec<String>,
}

impl View for VariableSet {
    type V = Seq<Seq<char>>;

    closed spec fn view(&self) -> Seq<Seq<char>> {
        self.labels.deep_view()
    }
}

impl VariableSet {
    /// The labels are pairwise distinct.
    pub open spec fn wf(&self) -> bool {
        unique_labels(self@)
    }

    /// The empty label set.
    pub fn empty() -> (r: VariableSet)
        ensures
            r@ =~= Seq::<Seq<char>>::empty(),
            r.wf(),
    {
        VariableSet { labels: Vec::new() }
    }

    /// Builds a set from a label sequence; refused when a label repeats.
    pub fn from_labels(labels: Vec<String>) -> (r: Option<VariableSet>)
        ensures
            match r {
                Some(vs) => vs@ == labels.deep_view() && vs.wf(),
                None => !unique_labels(labels.deep_view()),
            },
    {
        let n = labels.len();
        for i in 0..n
            invariant
                n == labels.len(),
                forall|p: int, q: int| 0 <= p < q < i ==> labels.deep_view()[p] != labels.deep_view()[q],
        {
            let mut j: usize = 0;
            while j < i
                invariant
                    j <= i < n == labels.len(),
                    forall|q: int| 0 <= q < j ==> labels.deep_view()[q] != labels.deep_view()[i as int],
                decreases i - j,
            {
                if labels[j] == labels[i] {
                    proof {
                        assert(labels.deep_view()[j as int] == labels@[j as int]@);
                        assert(labels.deep_view()[i as int] == labels@[i as int]@);
                        assert(!unique_labels(labels.deep_view()));
                    }
                    return None;
                }
                j += 1;
            }
        }
        Some(VariableSet { labels })
    }

    /// Number of labels.
    pub fn len(&self) -> (n: usize)
        ensures
            n == self@.len(),
    {
        self.labels.len()
    }

    /// The label at a position.
    pub fn label_at(&self, i: usize) -> (r: &String)
        requires
            i < self@.len(),
        ensures
            r@ == self@[i as int],
    {
        &self.labels[i]
    }

    /// The labels, in order.
    pub fn labels(&self) -> (r: &Vec<String>)
        ensures
            r.deep_view() == self@,
    {
        &self.labels
    }

    /// Position of a label, if the set tracks it.
    pub fn get_index_of(&self, label: &String) -> (r: Option<usize>)
        ensures
            match r {
                Some(i) => i < self@.len() && self@[i as int] == label@,
                None => !self@.contains(label@),
            },
    {
        let n = self.labels.len();
        for i in 0..n
            invariant
                n == self@.len(),
                forall|q: int| 0 <= q < i ==> self@[q] != label@,
        {
            if self.labels[i] == *label {
                return Some(i);
            }
        }
        None
    }

    /// Whether the set tracks a label.
    pub fn contains_label(&self, label: &String) -> (r: bool)
        ensures
            r == self@.contains(label@),
    {
        match self.get_index_of(label) {
            Some(_) => true,
            None => false,
        }
    }

    /// Whether every label of `self` occurs in `other`.
    pub fn is_subset_of(&self, other: &VariableSet) -> (r: bool)
        ensures
            r == subset_labels(self@, other@),
    {
        let n = self.labels.len();
        for i in 0..n
            invariant
                n == self@.len(),
                forall|q: int| 0 <= q < i ==> other@.contains(self@[q]),
        {
            if !other.contains_label(&self.labels[i]) {
                proof {
                    assert(self@[i as int] == self.labels@[i as int]@);
                    assert(!subset_labels(self@, other@));
                }
                return false;
            }
        }
        true
    }

    /// Whether two sets hold the same labels in the same order.
    pub fn same_order(&self, other: &VariableSet) -> (r: bool)
        ensures
            r == (self@ == other@),
    {
        let n = self.labels.len();
        if n != other.labels.len() {
            proof {
                assert(self@.len() != other@.len());
            }
            return false;
        }
        for i in 0..n
            invariant
                n == self@.len() == other@.len(),
                forall|q: int| 0 <= q < i ==> self@[q] == other@[q],
        {
            if self.labels[i] != other.labels[i] {
                proof {
                    assert(self@[i as int] == self.labels@[i as int]@);
                    assert(other@[i as int] == other.labels@[i as int]@);
                    assert(self@ != other@);
                }
                return false;
            }
        }
        proof {
            assert(self@ =~= other@);
        }
        true
    }

    /// The ordered union of two sets: `self`'s labels, then `other`'s new
    /// labels in `other`'s order.
    pub fn union(&self, other: &VariableSet) -> (r: VariableSet)
        requires
            self.wf(),
            other.wf(),
        ensures
            r@ == union_of(self@, other@),
            r.wf(),
    {
        let mut out: Vec<String> = self.labels.clone();
        proof {
            assert(out.deep_view() =~= self.labels.deep_view());
            assert(out.deep_view() =~= union_of(self@, other@.take(0)));
        }
        let n = other.labels.len();
        for i in 0..n
            invariant
                n == other@.len(),
                out.deep_view() == union_of(self@, other@.take(i as int)),
                self.wf(),
                other.wf(),
        {
            let ghost prev = out.deep_view();
            if !self.contains_label(&other.labels[i]) {
                out.push(other.labels[i].clone());
                proof {
                    assert(out.deep_view() =~= prev + seq![other@[i as int]]);
                }
            }
            proof {
                let t1 = other@.take(i + 1);
                assert(t1.drop_last() =~= other@.take(i as int));
                assert(t1.last() == other@[i as int]);
                assert(extras(self@, t1) == extras(self@, other@.take(i as int)) + (
                if self@.contains(other@[i as int]) {
                    Seq::<Seq<char>>::empty()
                } else {
                    seq![other@[i as int]]
                }));
                assert(out.deep_view() =~= union_of(self@, t1));
            }
        }
        proof {
            assert(other@.take(n as int) =~= other@);
            lemma_union_unique(self@, other@);
        }
        VariableSet { labels: out }
    }
}

} // verus!
