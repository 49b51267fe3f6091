use vstd::prelude::*;
use crate::utf16::chars_of;

verus! {

broadcast use vstd::std_specs::vec::axiom_vec_index_decreases;

/// Lexicographic order of segment names, by scalar value.
pub open spec fn name_lt(a: Seq<char>, b: Seq<char>) -> bool
    decreases a.len(),
{
    if a.len() == 0 {
        b.len() > 0
    } else if b.len() == 0 {
        false
    } else if a[0] != b[0] {
        a[0] < b[0]
    } else {
        name_lt(a.drop_first(), b.drop_first())
    }
}

pub proof fn lemma_name_lt_irreflexive(a: Seq<char>)
    ensures
        !name_lt(a, a),
    decreases a.len(),
{
    if a.len() > 0 {
        lemma_name_lt_irreflexive(a.drop_first());
    }
}

pub proof fn lemma_name_lt_transitive(a: Seq<char>, b: Seq<char>, c: Seq<char>)
    requires
        name_lt(a, b),
        name_lt(b, c),
    ensures
        name_lt(a, c),
    decreases a.len(),
{
    if a.len() > 0 && b.len() > 0 && c.len() > 0 && a[0] == b[0] && b[0] == c[0] {
        lemma_name_lt_transitive(a.drop_first(), b.drop_first(), c.drop_first());
    }
}

pub proof fn lemma_name_lt_total(a: Seq<char>, b: Seq<char>)
    requires
        a != b,
    ensures
        name_lt(a, b) || name_lt(b, a),
    decreases a.len(),
{
    if a.len() > 0 && b.len() > 0 && a[0] == b[0] {
        if a.drop_first() == b.drop_first() {
            assert(a =~= seq![a[0]] + a.drop_first());
            assert(b =~= seq![b[0]] + b.drop_first());
        }
        lemma_name_lt_total(a.drop_first(), b.drop_first());
    } else if a.len() == 0 && b.len() == 0 {
        assert(a =~= b);
    }
}

/// Compares two segment names in the order of `name_lt`.
pub fn less_than(a: &String, b: &String) -> (r: bool)
    ensures
        r == name_lt(a@, b@),
{
    let x = chars_of(a.as_str());
    let y = chars_of(b.as_str());
    let mut i: usize = 0;
    proof {
        assert(x@.skip(0) =~= x@);
        assert(y@.skip(0) =~= y@);
    }
    while i < x.len() && i < y.len() && x[i] == y[i]
        invariant
            i <= x@.len(),
            i <= y@.len(),
            x@ == a@,
            y@ == b@,
            name_lt(a@, b@) == name_lt(x@.skip(i as int), y@.skip(i as int)),
        decreases x@.len() - i,
    {
        proof {
            assert(x@.skip(i as int).drop_first() =~= x@.skip(i + 1));
            assert(y@.skip(i as int).drop_first() =~= y@.skip(i + 1));
        }
        i = i + 1;
    }
    if i == x.len() {
        i < y.len()
    } else if i == y.len() {
        false
    } else {
        x[i] < y[i]
    }
}

/// Lines joined, each followed by a line break.
pub open spec fn lines(ls: Seq<Seq<char>>) -> Seq<char>
    decreases ls.len(),
{
    if ls.len() == 0 {
        seq![]
    } else {
        lines(ls.drop_last()) + ls.last() + "\n"@
    }
}

/// The blocks of the first `n` children, in order.
pub open spec fn kids_rendered(names: Vec<String>, kids: Vec<Module>, n: nat) -> Seq<char>
    decreases kids, n,
{
    if n == 0 || n > kids@.len() || n > names@.len() {
        seq![]
    } else {
        kids_rendered(names, kids, (n - 1) as nat) + kids@[n - 1].rendered(Some(names@[n - 1]@))
    }
}

/// What a top-level item of a source file is, as far as the tree cares.
pub enum ItemKind {
    /// `mod name;`, a child module declared without a body.
    ModDecl(String),
    /// Any other item.
    Other,
}

/// A top-level item of a source file: its source text and its kind.
pub struct Item {
    pub text: String,
    pub kind: ItemKind,
}

/// A node of the module tree: the items of its own file, if one was loaded,
/// and its children, kept in strictly increasing order of name.
pub struct Module {
    pub code: Option<Vec<Item>>,
    pub names: Vec<String>,
    pub kids: Vec<Module>,
}

impl Module {
    /// Every node has as many children as child names, and its child names
    /// are strictly increasing.
    pub open spec fn wf(self) -> bool
        decreases self,
    {
        &&& self.names@.len() == self.kids@.len()
        &&& forall|i: int, j: int|
            0 <= i < j < self.names@.len() ==> name_lt(#[trigger] self.names@[i]@, #[trigger] self.names@[j]@)
        &&& forall|i: int| 0 <= i < self.kids@.len() ==> (#[trigger] self.kids@[i]).wf()
    }

    /// The position of the child named `n`, if there is one.
    pub open spec fn child_index(self, n: Seq<char>) -> Option<int> {
        if exists|i: int| 0 <= i < self.names@.len() && self.names@[i]@ == n {
            Some(choose|i: int| 0 <= i < self.names@.len() && self.names@[i]@ == n)
        } else {
            None
        }
    }

    /// The items stored at path `p` below this node.
    pub open spec fn code_at(self, p: Seq<Seq<char>>) -> Option<Vec<Item>>
        decreases p.len(),
    {
        if p.len() == 0 {
            self.code
        } else {
            match self.child_index(p[0]) {
                Some(i) => if 0 <= i < self.kids@.len() {
                    self.kids@[i].code_at(p.drop_first())
                } else {
                    None
                },
                None => None,
            }
        }
    }

    /// Whether this node has a child named `n`.
    pub open spec fn is_child(self, n: Seq<char>) -> bool {
        exists|i: int| 0 <= i < self.names@.len() && self.names@[i]@ == n
    }

    /// Whether an item survives deduplication under this node: a body-less
    /// module declaration goes when the tree holds that child itself.
    pub open spec fn keeps(self, it: Item) -> bool {
        match it.kind {
            ItemKind::ModDecl(n) => !self.is_child(n@),
            ItemKind::Other => true,
        }
    }

    /// The texts of the kept items among the first `n` of `items`, in order.
    pub open spec fn kept_texts(self, items: Seq<Item>, n: nat) -> Seq<Seq<char>>
        decreases n,
    {
        if n == 0 || n > items.len() {
            seq![]
        } else if self.keeps(items[n - 1]) {
            self.kept_texts(items, (n - 1) as nat).push(items[n - 1].text@)
        } else {
            self.kept_texts(items, (n - 1) as nat)
        }
    }

    /// The own text of this node: each kept item followed by a line break.
    pub open spec fn own_text(self) -> Seq<char> {
        match self.code {
            Some(c) => lines(self.kept_texts(c@, c@.len())),
            None => seq![],
        }
    }

    /// The rendered node: its own text, then each child's block in order of
    /// name; wrapped as `pub mod name { ... }` where the node has a name.
    pub open spec fn rendered(self, name: Option<Seq<char>>) -> Seq<char>
        decreases self, 0nat,
    {
        let body = self.own_text() + kids_rendered(self.names, self.kids, self.kids@.len());
        match name {
            Some(n) => "pub mod "@ + n + " {\n"@ + body + "}\n"@,
            None => body,
        }
    }

    /// Whether the path `p` can be walked from this node, child by child.
    pub open spec fn has_node(self, p: Seq<Seq<char>>) -> bool
        decreases p.len(),
    {
        if p.len() == 0 {
            true
        } else {
            match self.child_index(p[0]) {
                Some(i) => 0 <= i < self.kids@.len() && self.kids@[i].has_node(p.drop_first()),
                None => false,
            }
        }
    }

    /// An empty node: no code, no children.
    pub fn new() -> (r: Module)
        ensures
            r.wf(),
            r.code is None,
            r.names@.len() == 0,
    {
        Module { code: None, names: Vec::new(), kids: Vec::new() }
    }

    /// Whether this node has a child named `n`.
    pub fn has_child(&self, n: &String) -> (r: bool)
        ensures
            r == self.is_child(n@),
    {
        let mut i: usize = 0;
        while i < self.names.len()
            invariant
                i <= self.names@.len(),
                forall|j: int| 0 <= j < i ==> (#[trigger] self.names@[j])@ != n@,
            decreases self.names@.len() - i,
        {
            if self.names[i] == *n {
                return true;
            }
            i = i + 1;
        }
        false
    }

    /// The texts of `items` without the body-less declarations of modules
    /// that are children of this node, in the order given.
    pub fn strip_decls(&self, items: &Vec<Item>) -> (r: Vec<String>)
        ensures
            r.deep_view() == self.kept_texts(items@, items@.len()),
    {
        let mut r: Vec<String> = Vec::new();
        let mut i: usize = 0;
        while i < items.len()
            invariant
                i <= items@.len(),
                r.deep_view() == self.kept_texts(items@, i as nat),
            decreases items@.len() - i,
        {
            let it = &items[i];
            let keep = match &it.kind {
                ItemKind::ModDecl(n) => !self.has_child(n),
                ItemKind::Other => true,
            };
            let ghost before = r.deep_view();
            if keep {
                r.push(it.text.clone());
                proof {
                    assert(r.deep_view() =~= before.push(it.text@));
                }
            }
            i = i + 1;
        }
        r
    }

    /// Appends this node's rendering to `out` (see `rendered`).
    pub fn to_tokens(&self, name: Option<&String>, out: &mut String)
        requires
            self.wf(),
        ensures
            final(out)@ == old(out)@ + self.rendered(match name {
                Some(n) => Some(n@),
                None => None,
            }),
        decreases self,
    {
        let ghost start = out@;
        if let Some(n) = name {
            out.append("pub mod ");
            out.append(n.as_str());
            out.append(" {\n");
        }
        let ghost head = out@;
        if let Some(c) = &self.code {
            let kept = self.strip_decls(c);
            let mut i: usize = 0;
            while i < kept.len()
                invariant
                    i <= kept@.len(),
                    out@ == head + lines(kept.deep_view().subrange(0, i as int)),
                decreases kept@.len() - i,
            {
                out.append(kept[i].as_str());
                out.append("\n");
                proof {
                    let ls = kept.deep_view().subrange(0, i + 1);
                    assert(ls.drop_last() =~= kept.deep_view().subrange(0, i as int));
                }
                i = i + 1;
            }
            proof {
                assert(kept.deep_view().subrange(0, kept@.len() as int) =~= kept.deep_view());
            }
        }
        let ghost own = out@;
        assert(own == head + self.own_text());
        let mut i: usize = 0;
        while i < self.kids.len()
            invariant
                self.wf(),
                i <= self.kids@.len(),
                out@ == own + kids_rendered(self.names, self.kids, i as nat),
            decreases self.kids@.len() - i,
        {
            proof {
                vstd::std_specs::vec::axiom_vec_index_decreases(self.kids, i as int);
                assert(decreases_to!(*self => self.kids));
            }
            self.kids[i].to_tokens(Some(&self.names[i]), out);
            i = i + 1;
        }
        if let Some(n) = name {
            out.append("}\n");
        }
    }

    /// Stores `code` at the node reached by following `segs` from this one,
    /// creating the missing nodes on the way. A child that exists is updated,
    /// never duplicated. An empty path changes nothing.
    pub fn insert(&mut self, segs: &[String], code: Vec<Item>)
        requires
            old(self).wf(),
        ensures
            final(self).wf(),
            segs@.len() > 0 ==> final(self).code_at(segs.deep_view()) == Some(code),
            segs@.len() == 0 ==> *final(self) == *old(self),
            forall|p: Seq<Seq<char>>|
                p != segs.deep_view() ==> #[trigger] final(self).code_at(p) == old(self).code_at(p),
            forall|p: Seq<Seq<char>>|
                #[trigger] final(self).has_node(p) <==> old(self).has_node(p) || (0 < p.len() <= segs@.len()
                    && p == segs.deep_view().take(p.len() as int)),
    {
        if segs.len() > 0 {
            self.insert_from(segs, 0, code);
            proof {
                assert(segs.deep_view().skip(0) =~= segs.deep_view());
            }
        }
    }

    #[verifier::rlimit(60)]
    fn insert_from(&mut self, segs: &[String], k: usize, code: Vec<Item>)
        requires
            old(self).wf(),
            k < segs@.len(),
        ensures
            final(self).wf(),
            final(self).code_at(segs.deep_view().skip(k as int)) == Some(code),
            forall|p: Seq<Seq<char>>|
                p != segs.deep_view().skip(k as int) ==> #[trigger] final(self).code_at(p) == old(self).code_at(p),
            forall|p: Seq<Seq<char>>|
                #[trigger] final(self).has_node(p) <==> old(self).has_node(p) || (0 < p.len() <= segs@.len() - k
                    && p == segs.deep_view().skip(k as int).take(p.len() as int)),
        decreases segs@.len() - k,
    {
        let ghost orig = *self;
        let head = &segs[k];
        let mut i: usize = 0;
        while i < self.names.len() && less_than(&self.names[i], head)
            invariant
                self.wf(),
                i <= self.names@.len(),
                forall|j: int| 0 <= j < i ==> name_lt(#[trigger] self.names@[j]@, head@),
            decreases self.names@.len() - i,
        {
            i = i + 1;
        }
        let found = i < self.names.len() && self.names[i] == *head;
        if !found {
            proof {
                if i < self.names@.len() {
                    lemma_name_lt_total(self.names@[i as int]@, head@);
                }
                assert forall|a: int, b: int| 0 <= a < b < self.names@.len() implies
                    name_lt(self.names@[a]@, self.names@[b]@) by {}
                assert forall|j: int| i <= j < self.names@.len() implies
                    name_lt(head@, #[trigger] self.names@[j]@) by {
                    if j > i {
                        lemma_name_lt_transitive(head@, self.names@[i as int]@, self.names@[j]@);
                    }
                }
            }
            let ghost old_names = self.names@;
            let ghost old_kids = self.kids@;
            self.names.insert(i, head.clone());
            let fresh = Module::new();
            proof {
                assert forall|q: Seq<Seq<char>>| #[trigger] fresh.code_at(q) == None::<Vec<Item>> by {
                    if q.len() > 0 {
                        assert(fresh.child_index(q[0]) is None);
                    }
                }
                assert forall|q: Seq<Seq<char>>| #[trigger] fresh.has_node(q) <==> q.len() == 0 by {
                    if q.len() > 0 {
                        assert(fresh.child_index(q[0]) is None);
                    }
                }
            }
            self.kids.insert(i, fresh);
            proof {
                assert(self.kids@[i as int] == fresh);
                assert forall|q: Seq<Seq<char>>| #[trigger] self.kids@[i as int].code_at(q) == None::<Vec<Item>> by {
                    assert(fresh.code_at(q) == None::<Vec<Item>>);
                }
                assert forall|q: Seq<Seq<char>>| #[trigger] self.kids@[i as int].has_node(q) <==> q.len() == 0 by {
                    assert(fresh.has_node(q) <==> q.len() == 0);
                }
            }
            proof {
                assert(self.names@ == old_names.insert(i as int, self.names@[i as int]));
                assert forall|a: int, b: int| 0 <= a < b < self.names@.len() implies
                    name_lt(#[trigger] self.names@[a]@, #[trigger] self.names@[b]@) by {
                    if a < i && b > i {
                        assert(self.names@[b] == old_names[b - 1]);
                        lemma_name_lt_transitive(self.names@[a]@, head@, self.names@[b]@);
                    } else if a > i {
                        assert(self.names@[a] == old_names[a - 1]);
                        assert(self.names@[b] == old_names[b - 1]);
                    } else if a == i {
                        assert(self.names@[b] == old_names[b - 1]);
                    }
                }
                assert forall|j: int| 0 <= j < self.kids@.len() implies (#[trigger] self.kids@[j]).wf() by {
                    if j > i {
                        assert(self.kids@[j] == old_kids[j - 1]);
                    }
                }
            }
        }
        let ghost mid = *self;
        assert(mid.wf());
        proof {
            if found {
                assert(mid == orig);
            }
        }
        let mut child = self.kids.remove(i);
        proof {
            assert(child == mid.kids@[i as int]);
            assert(child.wf());
            assert(segs.deep_view().skip(k as int).drop_first() =~= segs.deep_view().skip(k + 1));
        }
        if k + 1 == segs.len() {
            child.code = Some(code);
            proof {
                assert(child.wf());
                assert(segs.deep_view().skip(k + 1).len() == 0);
            }
        } else {
            child.insert_from(segs, k + 1, code);
        }
        self.kids.insert(i, child);
        proof {
            let p = segs.deep_view().skip(k as int);
            assert(p[0] == head@);
            assert(self.kids@ =~= mid.kids@.update(i as int, child));
            assert(self.kids@[i as int] == child);
            assert(child.code_at(p.drop_first()) == Some(code));
            assert(self.names@[i as int]@ == head@);
            assert forall|j: int| 0 <= j < self.names@.len() && self.names@[j]@ == head@ implies j == i by {
                if j < i {
                    lemma_name_lt_irreflexive(head@);
                    assert(name_lt(self.names@[j]@, self.names@[i as int]@));
                } else if j > i {
                    lemma_name_lt_irreflexive(head@);
                    assert(name_lt(self.names@[i as int]@, self.names@[j]@));
                }
            }
            assert(self.child_index(head@) == Some(i as int));
            assert(p.drop_first() =~= segs.deep_view().skip(k + 1));
            if k + 1 == segs@.len() {
                assert(p.drop_first().len() == 0);
            }
            assert forall|j: int| 0 <= j < self.kids@.len() implies (#[trigger] self.kids@[j]).wf() by {
                if j != i {
                    assert(self.kids@[j] == mid.kids@[j]);
                }
            }
            let child0 = mid.kids@[i as int];
            assert forall|q: Seq<Seq<char>>| q != segs.deep_view().skip(k + 1) implies
                #[trigger] child.code_at(q) == child0.code_at(q) by {
                if k + 1 == segs@.len() {
                    if q.len() == 0 {
                        assert(q =~= segs.deep_view().skip(k + 1));
                    }
                    assert(child.names == child0.names && child.kids == child0.kids);
                    assert(child.child_index(q[0]) == child0.child_index(q[0]));
                } else {
                    assert(child.code_at(q) == child0.code_at(q));
                }
            }
            let rel = segs.deep_view().skip(k as int);
            let rest = segs.deep_view().skip(k + 1);
            assert forall|q: Seq<Seq<char>>| #[trigger] child.has_node(q) <==> child0.has_node(q) || (0 < q.len() <= rest.len()
                && q == rest.take(q.len() as int)) by {
                if k + 1 == segs@.len() {
                    if q.len() > 0 {
                        assert(child.names == child0.names && child.kids == child0.kids);
                        assert(child.child_index(q[0]) == child0.child_index(q[0]));
                    }
                }
            }
            if found {
                assert(self.names@ == orig.names@);
                assert(self.kids@ =~= orig.kids@.update(i as int, child));
            } else {
                assert(self.kids@ =~= orig.kids@.insert(i as int, child));
                assert(self.names@ =~= orig.names@.insert(i as int, self.names@[i as int]));
            }
            assert(rel[0] == head@);
            assert(rest =~= rel.drop_first());
            lemma_insert_nodes(orig, *self, i as int, found, head@, child0, child, rel, rest);
            assert forall|p: Seq<Seq<char>>| p != segs.deep_view().skip(k as int) implies
                #[trigger] self.code_at(p) == orig.code_at(p) by {
                if p.len() > 0 {
                    let n = p[0];
                    if n == head@ {
                        let q = p.drop_first();
                        assert(p =~= seq![n] + q);
                        assert(segs.deep_view().skip(k as int) =~= seq![n] + segs.deep_view().skip(k + 1));
                        assert(q != segs.deep_view().skip(k + 1));
                        assert(self.code_at(p) == child.code_at(q));
                        if found {
                            lemma_child_index(orig, n, i as int);
                            assert(orig.kids@[i as int] == child0);
                        } else {
                            assert(child0.code_at(q) == None::<Vec<Item>>);
                            assert forall|t: int| 0 <= t < orig.names@.len() implies orig.names@[t]@ != n by {
                                if t < i {
                                    assert(self.names@[t] == orig.names@[t]);
                                } else {
                                    assert(self.names@[t + 1] == orig.names@[t]);
                                }
                            }
                            assert(orig.child_index(n) is None);
                        }
                    } else {
                        if exists|t: int| 0 <= t < self.names@.len() && self.names@[t]@ == n {
                            let t = choose|t: int| 0 <= t < self.names@.len() && self.names@[t]@ == n;
                            lemma_child_index(*self, n, t);
                            assert(t != i);
                            assert(self.kids@[t] == mid.kids@[t]);
                            if found {
                                lemma_child_index(orig, n, t);
                            } else if t < i {
                                assert(orig.names@[t] == self.names@[t]);
                                assert(orig.kids@[t] == self.kids@[t]);
                                lemma_child_index(orig, n, t);
                            } else {
                                assert(orig.names@[t - 1] == self.names@[t]);
                                assert(orig.kids@[t - 1] == self.kids@[t]);
                                lemma_child_index(orig, n, t - 1);
                            }
                        } else {
                            assert(self.child_index(n) is None);
                            assert forall|t: int| 0 <= t < orig.names@.len() implies orig.names@[t]@ != n by {
                                if found {
                                    assert(self.names@[t] == orig.names@[t]);
                                } else if t < i {
                                    assert(self.names@[t] == orig.names@[t]);
                                } else {
                                    assert(self.names@[t + 1] == orig.names@[t]);
                                }
                            }
                            assert(orig.child_index(n) is None);
                        }
                    }
                }
            }
        }
    }
}

/// Two strictly increasing name lists that hold the same names are equal.
proof fn lemma_sorted_same_names(x: Seq<Seq<char>>, y: Seq<Seq<char>>)
    requires
        forall|i: int, j: int| 0 <= i < j < x.len() ==> name_lt(#[trigger] x[i], #[trigger] x[j]),
        forall|i: int, j: int| 0 <= i < j < y.len() ==> name_lt(#[trigger] y[i], #[trigger] y[j]),
        forall|n: Seq<char>| x.contains(n) <==> y.contains(n),
    ensures
        x == y,
    decreases x.len() + y.len(),
{
    if x.len() == 0 {
        if y.len() > 0 {
            assert(y.contains(y[0]));
        }
        assert(x =~= y);
    } else if y.len() == 0 {
        assert(x.contains(x[0]));
    } else {
        let a = x.last();
        let b = y.last();
        assert(x.contains(a));
        assert(y.contains(b));
        if a != b {
            let ib = choose|t: int| 0 <= t < x.len() && x[t] == b;
            let ia = choose|t: int| 0 <= t < y.len() && y[t] == a;
            assert(ib != x.len() - 1);
            assert(name_lt(b, a));
            assert(ia != y.len() - 1);
            assert(name_lt(a, b));
            lemma_name_lt_transitive(a, b, a);
            lemma_name_lt_irreflexive(a);
        }
        let x1 = x.drop_last();
        let y1 = y.drop_last();
        assert forall|n: Seq<char>| x1.contains(n) <==> y1.contains(n) by {
            if x1.contains(n) {
                let t = choose|t: int| 0 <= t < x1.len() && x1[t] == n;
                assert(name_lt(x[t], a));
                lemma_name_lt_irreflexive(a);
                assert(x.contains(n));
                let u = choose|u: int| 0 <= u < y.len() && y[u] == n;
                assert(u != y.len() - 1);
                assert(y1[u] == n);
            }
            if y1.contains(n) {
                let t = choose|t: int| 0 <= t < y1.len() && y1[t] == n;
                assert(name_lt(y[t], b));
                lemma_name_lt_irreflexive(b);
                assert(y.contains(n));
                let u = choose|u: int| 0 <= u < x.len() && x[u] == n;
                assert(u != x.len() - 1);
                assert(x1[u] == n);
            }
        }
        lemma_sorted_same_names(x1, y1);
        assert(x =~= x1.push(a));
        assert(y =~= y1.push(b));
    }
}

proof fn lemma_names_view(a: Module, b: Module)
    requires
        a.names.deep_view() == b.names.deep_view(),
    ensures
        a.names@.len() == b.names@.len(),
        forall|t: int| 0 <= t < a.names@.len() ==> (#[trigger] a.names@[t])@ == b.names@[t]@,
{
    assert(a.names.deep_view().len() == a.names@.len());
    assert(b.names.deep_view().len() == b.names@.len());
    assert forall|t: int| 0 <= t < a.names@.len() implies (#[trigger] a.names@[t])@ == b.names@[t]@ by {
        assert(a.names.deep_view()[t] == a.names@[t].deep_view());
        assert(b.names.deep_view()[t] == b.names@[t].deep_view());
    }
}

/// Two nodes with the same child names keep the same items.
proof fn lemma_same_kept(a: Module, b: Module, items: Seq<Item>, n: nat)
    requires
        a.names.deep_view() == b.names.deep_view(),
    ensures
        a.kept_texts(items, n) == b.kept_texts(items, n),
    decreases n,
{
    if n > 0 && n <= items.len() {
        lemma_same_kept(a, b, items, (n - 1) as nat);
        match items[n - 1].kind {
            ItemKind::ModDecl(m) => {
                lemma_names_view(a, b);
                if a.is_child(m@) {
                    let t = choose|t: int| 0 <= t < a.names@.len() && a.names@[t]@ == m@;
                    assert(a.names.deep_view()[t] == b.names.deep_view()[t]);
                    assert(b.names@[t]@ == m@);
                    assert(b.is_child(m@));
                }
                if b.is_child(m@) {
                    let t = choose|t: int| 0 <= t < b.names@.len() && b.names@[t]@ == m@;
                    assert(a.names.deep_view()[t] == b.names.deep_view()[t]);
                    assert(a.names@[t]@ == m@);
                    assert(a.is_child(m@));
                }
                assert(a.keeps(items[n - 1]) == b.keeps(items[n - 1]));
            },
            ItemKind::Other => {},
        }
    }
}

/// Two well-formed trees with the same nodes and the same code at every
/// path render to the same text: the order in which files were inserted
/// does not show in the output.
pub proof fn lemma_same_content_same_text(a: Module, b: Module, name: Option<Seq<char>>)
    requires
        a.wf(),
        b.wf(),
        forall|p: Seq<Seq<char>>| #[trigger] a.has_node(p) == b.has_node(p),
        forall|p: Seq<Seq<char>>| #[trigger] a.code_at(p) == b.code_at(p),
    ensures
        a.rendered(name) == b.rendered(name),
    decreases a, 1nat, 0nat,
{
    assert(a.code_at(seq![]) == b.code_at(seq![]));
    let x = a.names.deep_view();
    let y = b.names.deep_view();
    assert forall|n: Seq<char>| x.contains(n) <==> y.contains(n) by {
        assert(a.has_node(seq![n]) == b.has_node(seq![n]));
        assert(seq![n].drop_first().len() == 0);
        if x.contains(n) {
            let t = choose|t: int| 0 <= t < x.len() && x[t] == n;
            lemma_child_index(a, n, t);
            assert(seq![n][0] == n);
            assert(a.kids@[t].has_node(seq![n].drop_first()));
            assert(a.has_node(seq![n]));
            let u = choose|u: int| 0 <= u < b.names@.len() && b.names@[u]@ == n;
            assert(y[u] == n);
        }
        if y.contains(n) {
            let t = choose|t: int| 0 <= t < y.len() && y[t] == n;
            lemma_child_index(b, n, t);
            assert(seq![n][0] == n);
            assert(b.kids@[t].has_node(seq![n].drop_first()));
            assert(b.has_node(seq![n]));
            let u = choose|u: int| 0 <= u < a.names@.len() && a.names@[u]@ == n;
            assert(x[u] == n);
        }
    }
    lemma_sorted_same_names(x, y);
    match a.code {
        Some(c) => lemma_same_kept(a, b, c@, c@.len()),
        None => {},
    }
    lemma_same_kids_text(a, b, a.kids@.len());
}

proof fn lemma_same_kids_text(a: Module, b: Module, n: nat)
    requires
        a.wf(),
        b.wf(),
        a.names.deep_view() == b.names.deep_view(),
        forall|p: Seq<Seq<char>>| #[trigger] a.has_node(p) == b.has_node(p),
        forall|p: Seq<Seq<char>>| #[trigger] a.code_at(p) == b.code_at(p),
        n <= a.kids@.len(),
    ensures
        kids_rendered(a.names, a.kids, n) == kids_rendered(b.names, b.kids, n),
    decreases a, 0nat, n,
{
    if n > 0 {
        lemma_same_kids_text(a, b, (n - 1) as nat);
        let t = n - 1;
        let nm = a.names@[t]@;
        lemma_names_view(a, b);
        assert(b.names@[t]@ == nm);
        lemma_child_index(a, nm, t);
        lemma_child_index(b, nm, t);
        let ka = a.kids@[t];
        let kb = b.kids@[t];
        assert forall|q: Seq<Seq<char>>| #[trigger] ka.has_node(q) == kb.has_node(q) by {
            let p = seq![nm] + q;
            assert(p.drop_first() =~= q);
            assert(a.has_node(p) == b.has_node(p));
        }
        assert forall|q: Seq<Seq<char>>| #[trigger] ka.code_at(q) == kb.code_at(q) by {
            let p = seq![nm] + q;
            assert(p.drop_first() =~= q);
            assert(a.code_at(p) == b.code_at(p));
        }
        vstd::std_specs::vec::axiom_vec_index_decreases(a.kids, t);
        assert(decreases_to!(a => a.kids));
        lemma_same_content_same_text(ka, kb, Some(nm));
    }
}

/// The nodes of a node after one of its children, at position `i`, was
/// replaced by `child` (or inserted there, where `found` is false).
proof fn lemma_insert_nodes(
    orig: Module,
    now: Module,
    i: int,
    found: bool,
    head: Seq<char>,
    child0: Module,
    child: Module,
    rel: Seq<Seq<char>>,
    rest: Seq<Seq<char>>,
)
    requires
        orig.wf(),
        now.wf(),
        rel.len() > 0,
        rel[0] == head,
        rest == rel.drop_first(),
        0 <= i < now.names@.len(),
        i <= orig.names@.len(),
        now.names@[i]@ == head,
        now.kids@[i] == child,
        found ==> now.names@ == orig.names@ && now.kids@ == orig.kids@.update(i, child) && child0 == orig.kids@[i],
        !found ==> now.names@ == orig.names@.insert(i, now.names@[i]) && now.kids@ == orig.kids@.insert(i, child)
            && (forall|q: Seq<Seq<char>>| #[trigger] child0.has_node(q) <==> q.len() == 0),
        forall|q: Seq<Seq<char>>| #[trigger] child.has_node(q) <==> child0.has_node(q) || (0 < q.len() <= rest.len()
            && q == rest.take(q.len() as int)),
    ensures
        forall|p: Seq<Seq<char>>| #[trigger] now.has_node(p) <==> orig.has_node(p) || (0 < p.len() <= rel.len()
            && p == rel.take(p.len() as int)),
{
    assert forall|p: Seq<Seq<char>>| #[trigger] now.has_node(p) <==> orig.has_node(p) || (0 < p.len() <= rel.len()
        && p == rel.take(p.len() as int)) by {
        if p.len() > 0 {
            let n = p[0];
            if n == head {
                let q = p.drop_first();
                assert(p =~= seq![n] + q);
                assert(rel =~= seq![n] + rest);
                lemma_child_index(now, head, i);
                assert(now.has_node(p) == child.has_node(q));
                if 0 < p.len() <= rel.len() && p == rel.take(p.len() as int) {
                    assert(q =~= rest.take(q.len() as int));
                }
                if q.len() == 0 {
                    assert(q =~= rest.take(0));
                }
                if q.len() <= rest.len() && q == rest.take(q.len() as int) {
                    assert(p =~= rel.take(p.len() as int));
                }
                if found {
                    lemma_child_index(orig, n, i);
                    assert(orig.kids@[i] == child0);
                } else {
                    assert(child0.has_node(q) <==> q.len() == 0);
                    lemma_children_unique(now);
                    assert forall|t: int| 0 <= t < orig.names@.len() implies orig.names@[t]@ != n by {
                        if t < i {
                            assert(now.names@[t] == orig.names@[t]);
                            assert(now.names@[t]@ != now.names@[i]@);
                        } else {
                            assert(now.names@[t + 1] == orig.names@[t]);
                            assert(now.names@[t + 1]@ != now.names@[i]@);
                        }
                    }
                    assert(orig.child_index(n) is None);
                }
            } else {
                if 0 < p.len() <= rel.len() && p == rel.take(p.len() as int) {
                    assert(p[0] == rel[0]);
                }
                if exists|t: int| 0 <= t < now.names@.len() && now.names@[t]@ == n {
                    let t = choose|t: int| 0 <= t < now.names@.len() && now.names@[t]@ == n;
                    lemma_child_index(now, n, t);
                    assert(t != i);
                    if found {
                        assert(now.kids@[t] == orig.kids@[t]);
                        assert(orig.names@[t] == now.names@[t]);
                        lemma_child_index(orig, n, t);
                    } else if t < i {
                        assert(orig.names@[t] == now.names@[t]);
                        assert(orig.kids@[t] == now.kids@[t]);
                        lemma_child_index(orig, n, t);
                    } else {
                        assert(orig.names@[t - 1] == now.names@[t]);
                        assert(orig.kids@[t - 1] == now.kids@[t]);
                        lemma_child_index(orig, n, t - 1);
                    }
                } else {
                    assert(now.child_index(n) is None);
                    assert forall|t: int| 0 <= t < orig.names@.len() implies orig.names@[t]@ != n by {
                        if found {
                            assert(now.names@[t] == orig.names@[t]);
                        } else if t < i {
                            assert(now.names@[t] == orig.names@[t]);
                        } else {
                            assert(now.names@[t + 1] == orig.names@[t]);
                        }
                    }
                    assert(orig.child_index(n) is None);
                }
            }
        }
    }
}

/// In a well-formed node the child of a given name is found at its position.
pub proof fn lemma_child_index(m: Module, n: Seq<char>, i: int)
    requires
        m.wf(),
        0 <= i < m.names@.len(),
        m.names@[i]@ == n,
    ensures
        m.child_index(n) == Some(i),
{
    lemma_children_unique(m);
    let c = choose|j: int| 0 <= j < m.names@.len() && m.names@[j]@ == n;
    assert(m.names@[c]@ == m.names@[i]@);
}

/// In a well-formed tree no node has two children of the same name, and
/// this holds again at every child.
pub proof fn lemma_children_unique(m: Module)
    requires
        m.wf(),
    ensures
        forall|i: int, j: int|
            0 <= i < m.names@.len() && 0 <= j < m.names@.len() && i != j
                ==> #[trigger] m.names@[i]@ != #[trigger] m.names@[j]@,
        forall|i: int| 0 <= i < m.kids@.len() ==> (#[trigger] m.kids@[i]).wf(),
{
    assert forall|i: int, j: int|
        0 <= i < m.names@.len() && 0 <= j < m.names@.len() && i != j
            implies #[trigger] m.names@[i]@ != #[trigger] m.names@[j]@ by {
        if i < j {
            assert(name_lt(m.names@[i]@, m.names@[j]@));
        } else {
            assert(name_lt(m.names@[j]@, m.names@[i]@));
        }
        lemma_name_lt_irreflexive(m.names@[i]@);
    }
}

} // verus!
