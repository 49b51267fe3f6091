use vstd::prelude::*;
use crate::module::{Item, Module};
use crate::paths::{collect_leaves, copy_path, lemma_nameless_no_leaves, leaves, nameless, PathView, UseTree};
use crate::utf16::chars_of;

verus! {

/// What the closure needs of one parsed source file: its top-level items,
/// and every import declaration in it, nested ones included, in order.
pub struct SourceFile {
    pub items: Vec<Item>,
    pub uses: Vec<UseTree>,
}

/// Why a run stops.
#[derive(Debug, PartialEq, Eq, Structural)]
pub enum BundleError {
    /// A module key has no file behind it (strict runs only).
    MissingDependency,
}

/// The module keys that leaf references need: each leaf of two or more
/// segments without its last segment.
pub open spec fn keys_of(ls: Seq<PathView>) -> Seq<PathView>
    decreases ls.len(),
{
    if ls.len() == 0 {
        seq![]
    } else if ls.last().len() >= 2 {
        keys_of(ls.drop_last()).push(ls.last().drop_last())
    } else {
        keys_of(ls.drop_last())
    }
}

/// Every module key has at least the library root's segment.
pub proof fn lemma_keys_below_root(ls: Seq<PathView>)
    ensures
        forall|t: int| 0 <= t < keys_of(ls).len() ==> #[trigger] keys_of(ls)[t].len() >= 1,
    decreases ls.len(),
{
    if ls.len() > 0 {
        let rest = keys_of(ls.drop_last());
        lemma_keys_below_root(ls.drop_last());
        assert forall|t: int| 0 <= t < keys_of(ls).len() implies #[trigger] keys_of(ls)[t].len() >= 1 by {
            if ls.last().len() >= 2 && t < rest.len() {
                assert(keys_of(ls)[t] == rest[t]);
            }
        }
    }
}

/// The leaf references into the library `root` made by the first `n` imports.
pub open spec fn entry_leaves(uses: Seq<UseTree>, root: Seq<char>, n: nat) -> Seq<PathView>
    decreases n,
{
    if n == 0 || n > uses.len() {
        seq![]
    } else {
        entry_leaves(uses, root, (n - 1) as nat) + match uses[n - 1] {
            UseTree::Path(seg, sub) => if seg@ == root {
                leaves(seq![root], *sub)
            } else {
                seq![]
            },
            _ => seq![],
        }
    }
}

/// A target whose imports of the library `root` hold no plain or renamed
/// member makes no reference into it (so its text passes through as it is).
pub proof fn lemma_no_library_names(uses: Seq<UseTree>, root: Seq<char>, n: nat)
    requires
        forall|t: int| 0 <= t < uses.len() ==> match #[trigger] uses[t] {
            UseTree::Path(seg, sub) => seg@ == root ==> nameless(*sub),
            _ => true,
        },
    ensures
        entry_leaves(uses, root, n).len() == 0,
    decreases n,
{
    if n > 0 && n <= uses.len() {
        lemma_no_library_names(uses, root, (n - 1) as nat);
        match uses[n - 1] {
            UseTree::Path(seg, sub) => {
                if seg@ == root {
                    lemma_nameless_no_leaves(seq![root], *sub);
                }
            },
            _ => {},
        }
    }
}

/// The internal references made by the first `n` imports of the file of
/// module `cur`: `crate::...` read from the library root, `super::...` read
/// from the parent of `cur`.
pub open spec fn internal_leaves(uses: Seq<UseTree>, cur: PathView, root: Seq<char>, n: nat) -> Seq<PathView>
    decreases n,
{
    if n == 0 || n > uses.len() {
        seq![]
    } else {
        internal_leaves(uses, cur, root, (n - 1) as nat) + match uses[n - 1] {
            UseTree::Path(seg, sub) => if seg@ == "crate"@ {
                leaves(seq![root], *sub)
            } else if seg@ == "super"@ && cur.len() > 0 {
                leaves(cur.drop_last(), *sub)
            } else {
                seq![]
            },
            _ => seq![],
        }
    }
}

/// The first `n` keys of `ks` that `visited` does not hold, in order.
pub open spec fn fresh_keys(ks: Seq<PathView>, visited: Seq<PathView>, n: nat) -> Seq<PathView>
    decreases n,
{
    if n == 0 || n > ks.len() {
        seq![]
    } else if visited.contains(ks[n - 1]) {
        fresh_keys(ks, visited, (n - 1) as nat)
    } else {
        fresh_keys(ks, visited, (n - 1) as nat).push(ks[n - 1])
    }
}

/// The keys reached from `entries` in at most `n` steps along `deps`.
pub open spec fn reach(entries: Set<PathView>, deps: Map<PathView, Set<PathView>>, n: nat) -> Set<PathView>
    decreases n,
{
    if n == 0 {
        entries
    } else {
        let r = reach(entries, deps, (n - 1) as nat);
        r.union(Set::new(|k: PathView| exists|j: PathView| r.contains(j) && deps.dom().contains(j) && #[trigger] deps[j].contains(k)))
    }
}

/// Whether `k` is reached from `entries` along `deps` in some number of steps.
pub open spec fn reachable(entries: Set<PathView>, deps: Map<PathView, Set<PathView>>, k: PathView) -> bool {
    exists|n: nat| #[trigger] reach(entries, deps, n).contains(k)
}

/// Whether two names are equal.
pub fn same_name(a: &String, b: &str) -> (r: bool)
    ensures
        r == (a@ == b@),
{
    let x = chars_of(a.as_str());
    let y = chars_of(b);
    if x.len() != y.len() {
        return false;
    }
    let mut i: usize = 0;
    while i < x.len()
        invariant
            x@ == a@,
            y@ == b@,
            x@.len() == y@.len(),
            i <= x@.len(),
            forall|j: int| 0 <= j < i ==> x@[j] == y@[j],
        decreases x@.len() - i,
    {
        if x[i] != y[i] {
            return false;
        }
        i = i + 1;
    }
    proof {
        assert(x@ =~= y@);
    }
    true
}

/// Whether two paths are equal, segment by segment.
pub fn same_path(a: &Vec<String>, b: &Vec<String>) -> (r: bool)
    ensures
        r == (a.deep_view() == b.deep_view()),
{
    if a.len() != b.len() {
        assert(a.deep_view().len() != b.deep_view().len());
        return false;
    }
    let mut i: usize = 0;
    while i < a.len()
        invariant
            a@.len() == b@.len(),
            i <= a@.len(),
            forall|j: int| 0 <= j < i ==> a.deep_view()[j] == b.deep_view()[j],
        decreases a@.len() - i,
    {
        if !same_name(&a[i], b[i].as_str()) {
            assert(a.deep_view()[i as int] != b.deep_view()[i as int]);
            return false;
        }
        i = i + 1;
    }
    proof {
        assert(a.deep_view() =~= b.deep_view());
    }
    true
}

/// Whether `ps` holds a path equal to `p`.
pub fn contains_path(ps: &Vec<Vec<String>>, p: &Vec<String>) -> (r: bool)
    ensures
        r == ps.deep_view().contains(p.deep_view()),
{
    let mut i: usize = 0;
    while i < ps.len()
        invariant
            i <= ps@.len(),
            forall|j: int| 0 <= j < i ==> ps.deep_view()[j] != p.deep_view(),
        decreases ps@.len() - i,
    {
        if same_path(&ps[i], p) {
            assert(ps.deep_view()[i as int] == p.deep_view());
            return true;
        }
        i = i + 1;
    }
    false
}

/// Appends to `out` the module keys of `ls` (see `keys_of`).
pub fn push_keys(leaves: Vec<Vec<String>>, out: &mut Vec<Vec<String>>)
    ensures
        final(out).deep_view() == old(out).deep_view() + keys_of(leaves.deep_view()),
{
    let mut ls = leaves;
    let mut found: Vec<Vec<String>> = Vec::new();
    while ls.len() > 0
        invariant
            keys_of(ls.deep_view()) + found.deep_view() == keys_of(leaves.deep_view()) + seq![],
        decreases ls@.len(),
    {
        let ghost before = ls.deep_view();
        let ghost fbefore = found.deep_view();
        let mut leaf = ls.pop().unwrap();
        proof {
            assert(ls.deep_view() =~= before.drop_last());
        }
        assert(leaf.deep_view() == before.last());
        if leaf.len() >= 2 {
            let ghost lv = leaf.deep_view();
            leaf.pop();
            assert(leaf.deep_view() =~= lv.drop_last());
            found.insert(0, leaf);
            proof {
                assert(found.deep_view() =~= seq![before.last().drop_last()] + fbefore);
                assert(keys_of(before) == keys_of(ls.deep_view()).push(before.last().drop_last()));
                assert(keys_of(ls.deep_view()).push(before.last().drop_last()) + fbefore
                    =~= keys_of(ls.deep_view()) + found.deep_view());
            }
        }
    }
    proof {
        assert(ls.deep_view() =~= Seq::<PathView>::empty());
        assert(found.deep_view() =~= keys_of(leaves.deep_view()));
    }
    let ghost start = out.deep_view();
    let mut i: usize = 0;
    while i < found.len()
        invariant
            i <= found@.len(),
            found.deep_view() == keys_of(leaves.deep_view()),
            out.deep_view() == start + found.deep_view().subrange(0, i as int),
        decreases found@.len() - i,
    {
        let ghost b = out.deep_view();
        let p = copy_path(&found[i]);
        out.push(p);
        proof {
            assert(out.deep_view() =~= b.push(found.deep_view()[i as int]));
            assert(out.deep_view() =~= start + found.deep_view().subrange(0, i + 1));
        }
        i = i + 1;
    }
    proof {
        assert(found.deep_view().subrange(0, found@.len() as int) =~= found.deep_view());
    }
}

/// The leaf references into the library `root` that a target file's
/// imports make.
pub fn target_leaves(file: &SourceFile, root: &String) -> (r: Vec<Vec<String>>)
    ensures
        r.deep_view() == entry_leaves(file.uses@, root@, file.uses@.len()),
{
    let mut out: Vec<Vec<String>> = Vec::new();
    let mut i: usize = 0;
    while i < file.uses.len()
        invariant
            i <= file.uses@.len(),
            out.deep_view() == entry_leaves(file.uses@, root@, i as nat),
        decreases file.uses@.len() - i,
    {
        let ghost before = out.deep_view();
        match &file.uses[i] {
            UseTree::Path(seg, sub) => {
                if same_name(seg, root.as_str()) {
                    let mut prefix: Vec<String> = Vec::new();
                    prefix.push(root.clone());
                    proof {
                        assert(prefix.deep_view() =~= seq![root@]);
                    }
                    collect_leaves(&**sub, &mut prefix, &mut out);
                } else {
                    assert(out.deep_view() =~= before + seq![]);
                }
            },
            _ => {
                assert(out.deep_view() =~= before + seq![]);
            },
        }
        i = i + 1;
    }
    out
}

/// The internal references that the imports of the file of module `cur`
/// make (see `internal_leaves`).
pub fn internal_deps(uses: &Vec<UseTree>, cur: &Vec<String>, root: &String) -> (r: Vec<Vec<String>>)
    ensures
        r.deep_view() == internal_leaves(uses@, cur.deep_view(), root@, uses@.len()),
{
    let mut out: Vec<Vec<String>> = Vec::new();
    let mut i: usize = 0;
    while i < uses.len()
        invariant
            i <= uses@.len(),
            out.deep_view() == internal_leaves(uses@, cur.deep_view(), root@, i as nat),
        decreases uses@.len() - i,
    {
        let ghost before = out.deep_view();
        match &uses[i] {
            UseTree::Path(seg, sub) => {
                if same_name(seg, "crate") {
                    let mut prefix: Vec<String> = Vec::new();
                    prefix.push(root.clone());
                    proof {
                        assert(prefix.deep_view() =~= seq![root@]);
                    }
                    collect_leaves(&**sub, &mut prefix, &mut out);
                } else if same_name(seg, "super") && cur.len() > 0 {
                    let mut prefix = copy_path(cur);
                    let ghost pv = prefix.deep_view();
                    prefix.pop();
                    proof {
                        assert(prefix.deep_view() =~= pv.drop_last());
                    }
                    collect_leaves(&**sub, &mut prefix, &mut out);
                } else {
                    assert(out.deep_view() =~= before + seq![]);
                }
            },
            _ => {
                assert(out.deep_view() =~= before + seq![]);
            },
        }
        i = i + 1;
    }
    out
}

/// Adding the outgoing keys of a key that had none keeps every key reached.
pub proof fn lemma_reach_grows(
    entries: Set<PathView>,
    deps: Map<PathView, Set<PathView>>,
    j: PathView,
    d: Set<PathView>,
    n: nat,
)
    requires
        !deps.dom().contains(j),
    ensures
        reach(entries, deps, n).subset_of(reach(entries, deps.insert(j, d), n)),
    decreases n,
{
    if n > 0 {
        lemma_reach_grows(entries, deps, j, d, (n - 1) as nat);
        let r0 = reach(entries, deps, (n - 1) as nat);
        let r1 = reach(entries, deps.insert(j, d), (n - 1) as nat);
        let deps1 = deps.insert(j, d);
        assert forall|k: PathView| reach(entries, deps, n).contains(k) implies reach(entries, deps1, n).contains(k) by {
            if !r0.contains(k) {
                let w = choose|w: PathView| r0.contains(w) && deps.dom().contains(w) && #[trigger] deps[w].contains(k);
                assert(w != j);
                assert(deps1[w] == deps[w]);
                assert(r1.contains(w));
            }
        }
    }
}

/// The state of one bundling run: the keys still to load, the keys loaded
/// or given up, and the module tree built so far. `entries` and `deps` record
/// the entry keys and, for each loaded key, the keys its file refers to.
pub struct Bundle {
    pub root: String,
    pub strict: bool,
    pub queue: Vec<Vec<String>>,
    pub visited: Vec<Vec<String>>,
    pub tree: Module,
    pub entries: Ghost<Set<PathView>>,
    pub deps: Ghost<Map<PathView, Set<PathView>>>,
}

impl Bundle {
    /// Whether `k` is queued or visited.
    pub open spec fn known(self, k: PathView) -> bool {
        self.queue.deep_view().contains(k) || self.visited.deep_view().contains(k)
    }

    pub open spec fn inv(self) -> bool {
        &&& self.tree.wf()
        &&& forall|k: PathView| #[trigger] self.entries@.contains(k) ==> self.known(k)
        &&& forall|k: PathView| #[trigger] self.known(k) ==> reachable(self.entries@, self.deps@, k) && k.len() >= 1
        &&& forall|j: PathView| #[trigger] self.deps@.dom().contains(j) ==> self.visited.deep_view().contains(j)
        &&& forall|j: PathView, k: PathView|
            self.deps@.dom().contains(j) && #[trigger] self.deps@[j].contains(k) ==> self.known(k)
    }

    /// Starts a run on the leaf references of a target file: the module keys
    /// they need are queued, nothing is visited yet.
    pub fn new(root: String, strict: bool, leaves: Vec<Vec<String>>) -> (r: Bundle)
        ensures
            r.inv(),
            r.root@ == root@,
            r.strict == strict,
            r.queue.deep_view() == keys_of(leaves.deep_view()),
            r.visited@.len() == 0,
            r.entries@ == keys_of(leaves.deep_view()).to_set(),
            r.deps@ == Map::<PathView, Set<PathView>>::empty(),
            r.tree.code is None,
            r.tree.names@.len() == 0,
    {
        let mut queue: Vec<Vec<String>> = Vec::new();
        push_keys(leaves, &mut queue);
        assert(queue.deep_view() =~= Seq::<PathView>::empty() + keys_of(leaves.deep_view()));
        let b = Bundle {
            root,
            strict,
            queue,
            visited: Vec::new(),
            tree: Module::new(),
            entries: Ghost(keys_of(leaves.deep_view()).to_set()),
            deps: Ghost(Map::empty()),
        };
        proof {
            lemma_keys_below_root(leaves.deep_view());
            assert forall|k: PathView| #[trigger] b.known(k) implies reachable(b.entries@, b.deps@, k) && k.len() >= 1 by {
                assert(b.visited.deep_view().len() == 0);
                assert(reach(b.entries@, b.deps@, 0).contains(k));
                let t = choose|t: int| 0 <= t < b.queue.deep_view().len() && b.queue.deep_view()[t] == k;
                assert(keys_of(leaves.deep_view())[t] == k);
            }
        }
        b
    }

    /// Takes the next key to load: keys already visited are dropped from the
    /// queue; the key returned is marked visited. `None` once the queue is
    /// empty. Only keys reached from the entry keys are ever returned.
    pub fn next_key(&mut self) -> (r: Option<Vec<String>>)
        requires
            old(self).inv(),
        ensures
            final(self).inv(),
            final(self).root == old(self).root,
            final(self).strict == old(self).strict,
            final(self).tree == old(self).tree,
            final(self).entries == old(self).entries,
            final(self).deps == old(self).deps,
            final(self).queue@.len() <= old(self).queue@.len(),
            final(self).queue.deep_view() == old(self).queue.deep_view().subrange(0, final(self).queue@.len() as int),
            r is None ==> final(self).queue@.len() == 0 && final(self).visited == old(self).visited,
            r is Some ==> final(self).queue@.len() < old(self).queue@.len()
                && r->0.deep_view() == old(self).queue.deep_view()[final(self).queue@.len() as int],
            forall|t: int| r is None && 0 <= t < old(self).queue@.len()
                ==> old(self).visited.deep_view().contains(#[trigger] old(self).queue.deep_view()[t]),
            forall|t: int| r is Some && final(self).queue@.len() < t < old(self).queue@.len()
                ==> old(self).visited.deep_view().contains(#[trigger] old(self).queue.deep_view()[t]),
            r is Some ==> {
                &&& reachable(old(self).entries@, old(self).deps@, r->0.deep_view())
                &&& r->0@.len() >= 1
                &&& !old(self).visited.deep_view().contains(r->0.deep_view())
                &&& final(self).visited.deep_view() == old(self).visited.deep_view().push(r->0.deep_view())
            },
    {
        while self.queue.len() > 0
            invariant
                self.inv(),
                self.root == old(self).root,
                self.strict == old(self).strict,
                self.tree == old(self).tree,
                self.entries == old(self).entries,
                self.deps == old(self).deps,
                self.visited == old(self).visited,
                self.queue@.len() <= old(self).queue@.len(),
                self.queue.deep_view() == old(self).queue.deep_view().subrange(0, self.queue@.len() as int),
                forall|t: int| self.queue@.len() <= t < old(self).queue@.len()
                    ==> old(self).visited.deep_view().contains(#[trigger] old(self).queue.deep_view()[t]),
            decreases self.queue@.len(),
        {
            let ghost q0 = self.queue.deep_view();
            let ghost pre = *self;
            let k = self.queue.pop().unwrap();
            proof {
                assert(self.queue.deep_view() =~= q0.drop_last());
                assert(k.deep_view() == q0.last());
                assert(pre.known(k.deep_view()));
            }
            proof {
                assert(self.queue.deep_view() =~= old(self).queue.deep_view().subrange(0, self.queue@.len() as int));
                assert(k.deep_view() == old(self).queue.deep_view()[self.queue@.len() as int]);
            }
            if !contains_path(&self.visited, &k) {
                let ghost v0 = self.visited.deep_view();
                let c = copy_path(&k);
                self.visited.push(c);
                proof {
                    assert(self.visited.deep_view() =~= v0.push(k.deep_view()));
                    assert forall|x: PathView| pre.known(x) implies #[trigger] self.known(x) by {
                        if q0.contains(x) && x != k.deep_view() {
                            let t = choose|t: int| 0 <= t < q0.len() && q0[t] == x;
                            assert(self.queue.deep_view()[t] == x);
                        }
                        if v0.contains(x) {
                            let t = choose|t: int| 0 <= t < v0.len() && v0[t] == x;
                            assert(self.visited.deep_view()[t] == x);
                        }
                        if x == k.deep_view() {
                            assert(self.visited.deep_view()[v0.len() as int] == x);
                        }
                    }
                    assert forall|x: PathView| #[trigger] self.known(x) implies pre.known(x) by {
                        if self.queue.deep_view().contains(x) {
                            let t = choose|t: int| 0 <= t < self.queue.deep_view().len() && self.queue.deep_view()[t] == x;
                            assert(q0[t] == x);
                        }
                        if self.visited.deep_view().contains(x) && x != k.deep_view() {
                            let t = choose|t: int| 0 <= t < self.visited.deep_view().len() && self.visited.deep_view()[t] == x;
                            assert(v0[t] == x);
                        }
                    }
                    assert forall|j: PathView| #[trigger] self.deps@.dom().contains(j) implies self.visited.deep_view().contains(j) by {
                        let t = choose|t: int| 0 <= t < v0.len() && v0[t] == j;
                        assert(self.visited.deep_view()[t] == j);
                    }
                }
                return Some(k);
            }
            proof {
                assert forall|x: PathView| pre.known(x) <==> #[trigger] self.known(x) by {
                    if q0.contains(x) && x != k.deep_view() {
                        let t = choose|t: int| 0 <= t < q0.len() && q0[t] == x;
                        assert(self.queue.deep_view()[t] == x);
                    }
                    if self.queue.deep_view().contains(x) {
                        let t = choose|t: int| 0 <= t < self.queue.deep_view().len() && self.queue.deep_view()[t] == x;
                        assert(q0[t] == x);
                    }
                }
            }
        }
        None
    }

    /// Records the file loaded for `key`, a key just handed out by
    /// `next_key`: its items are stored in the tree at `key`, and every key
    /// its internal references need that is not visited yet is queued.
    pub fn deliver(&mut self, key: &Vec<String>, file: SourceFile)
        requires
            old(self).inv(),
            old(self).visited.deep_view().contains(key.deep_view()),
            !old(self).deps@.dom().contains(key.deep_view()),
        ensures
            final(self).inv(),
            final(self).root == old(self).root,
            final(self).strict == old(self).strict,
            final(self).entries == old(self).entries,
            final(self).visited == old(self).visited,
            final(self).deps@ == old(self).deps@.insert(
                key.deep_view(),
                keys_of(internal_leaves(file.uses@, key.deep_view(), old(self).root@, file.uses@.len())).to_set(),
            ),
            final(self).queue.deep_view() == old(self).queue.deep_view() + fresh_keys(
                keys_of(internal_leaves(file.uses@, key.deep_view(), old(self).root@, file.uses@.len())),
                old(self).visited.deep_view(),
                keys_of(internal_leaves(file.uses@, key.deep_view(), old(self).root@, file.uses@.len())).len(),
            ),
            final(self).tree.code_at(key.deep_view()) == Some(file.items),
            forall|p: PathView|
                p != key.deep_view() ==> #[trigger] final(self).tree.code_at(p) == old(self).tree.code_at(p),
            forall|p: PathView|
                #[trigger] final(self).tree.has_node(p) <==> old(self).tree.has_node(p) || (0 < p.len() <= key@.len()
                    && p == key.deep_view().take(p.len() as int)),
    {
        let ls = internal_deps(&file.uses, key, &self.root);
        let mut ks: Vec<Vec<String>> = Vec::new();
        push_keys(ls, &mut ks);
        assert(ks.deep_view() =~= Seq::<PathView>::empty() + keys_of(ls.deep_view()));
        let ghost d = ks.deep_view().to_set();
        let ghost pre = *self;
        let ghost deps1 = self.deps@.insert(key.deep_view(), d);
        proof {
            lemma_keys_below_root(ls.deep_view());
            assert(pre.known(key.deep_view()));
            assert forall|x: PathView| #[trigger] pre.known(x) implies reachable(pre.entries@, deps1, x) && x.len() >= 1 by {
                let n = choose|n: nat| #[trigger] reach(pre.entries@, pre.deps@, n).contains(x);
                lemma_reach_grows(pre.entries@, pre.deps@, key.deep_view(), d, n);
                assert(reach(pre.entries@, deps1, n).contains(x));
            }
        }
        self.deps = Ghost(deps1);
        proof {
            assert forall|x: PathView| #[trigger] self.known(x) implies reachable(pre.entries@, deps1, x) && x.len() >= 1 by {
                assert(pre.known(x));
            }
            assert(pre.known(key.deep_view()));
        }
        let mut i: usize = 0;
        while i < ks.len()
            invariant
                i <= ks@.len(),
                d == ks.deep_view().to_set(),
                self.root == pre.root,
                self.strict == pre.strict,
                self.entries == pre.entries,
                self.visited == pre.visited,
                self.tree == pre.tree,
                self.deps@ == deps1,
                deps1 == pre.deps@.insert(key.deep_view(), d),
                reachable(pre.entries@, deps1, key.deep_view()),
                self.queue.deep_view() == pre.queue.deep_view() + fresh_keys(ks.deep_view(), pre.visited.deep_view(), i as nat),
                pre.visited.deep_view().contains(key.deep_view()),
                forall|x: PathView| #[trigger] pre.known(x) ==> self.known(x),
                forall|x: PathView| #[trigger] self.known(x) ==> reachable(pre.entries@, deps1, x) && x.len() >= 1,
                forall|t: int| 0 <= t < ks@.len() ==> #[trigger] ks.deep_view()[t].len() >= 1,
                forall|t: int| 0 <= t < i ==> self.known(#[trigger] ks.deep_view()[t]),
            decreases ks@.len() - i,
        {
            if !contains_path(&self.visited, &ks[i]) {
                let ghost q0 = self.queue.deep_view();
                let ghost s0 = *self;
                let c = copy_path(&ks[i]);
                self.queue.push(c);
                proof {
                    let kv = ks.deep_view()[i as int];
                    assert(self.queue.deep_view() =~= q0.push(kv));
                    assert(!pre.visited.deep_view().contains(kv));
                    assert(self.queue.deep_view() =~= pre.queue.deep_view() + fresh_keys(ks.deep_view(), pre.visited.deep_view(), (i + 1) as nat));
                    assert(self.queue.deep_view()[q0.len() as int] == kv);
                    assert forall|x: PathView| #[trigger] s0.known(x) implies self.known(x) by {
                        if q0.contains(x) {
                            let t = choose|t: int| 0 <= t < q0.len() && q0[t] == x;
                            assert(self.queue.deep_view()[t] == x);
                        }
                    }
                    assert forall|x: PathView| #[trigger] self.known(x) implies reachable(pre.entries@, deps1, x) && x.len() >= 1 by {
                        if x == kv {
                            let n = choose|n: nat| #[trigger] reach(pre.entries@, deps1, n).contains(key.deep_view());
                            assert(d.contains(kv));
                            assert(deps1[key.deep_view()] == d);
                            assert(deps1.dom().contains(key.deep_view()));
                            assert(reach(pre.entries@, deps1, n + 1).contains(x));
                        } else if self.queue.deep_view().contains(x) {
                            let t = choose|t: int| 0 <= t < self.queue.deep_view().len() && self.queue.deep_view()[t] == x;
                            assert(q0[t] == x);
                            assert(s0.known(x));
                        } else {
                            assert(s0.known(x));
                        }
                    }
                    assert forall|t: int| 0 <= t <= i implies self.known(#[trigger] ks.deep_view()[t]) by {
                        if t < i {
                            assert(s0.known(ks.deep_view()[t]));
                        }
                    }
                }
            }
            proof {
                if self.visited.deep_view().contains(ks.deep_view()[i as int]) {
                    assert(self.queue.deep_view() =~= pre.queue.deep_view() + fresh_keys(ks.deep_view(), pre.visited.deep_view(), (i + 1) as nat));
                }
            }
            i = i + 1;
        }
        let ghost s1 = *self;
        self.tree.insert(key.as_slice(), file.items);
        proof {
            assert(self.queue == s1.queue && self.visited == s1.visited);
            assert forall|x: PathView| #[trigger] d.contains(x) implies self.known(x) by {
                let t = choose|t: int| 0 <= t < ks.deep_view().len() && ks.deep_view()[t] == x;
            }
            assert forall|j: PathView, x: PathView|
                self.deps@.dom().contains(j) && #[trigger] self.deps@[j].contains(x) implies self.known(x) by {
                if j != key.deep_view() {
                    assert(pre.deps@[j] == self.deps@[j]);
                    assert(pre.known(x));
                }
            }
            assert forall|k: PathView| #[trigger] self.entries@.contains(k) implies self.known(k) by {
                assert(pre.known(k));
            }
            assert forall|j: PathView| #[trigger] self.deps@.dom().contains(j) implies self.visited.deep_view().contains(j) by {
                if j != key.deep_view() {
                    assert(pre.deps@.dom().contains(j));
                }
            }
            assert(self.tree.wf());
            assert forall|k: PathView| #[trigger] self.known(k) implies reachable(self.entries@, self.deps@, k) && k.len() >= 1 by {
                assert(s1.known(k));
            }
        }
    }

    /// A key handed out by `next_key` has no file behind it: a strict run
    /// stops, a lenient one goes on without it.
    pub fn missing(&self) -> (r: Result<(), BundleError>)
        ensures
            self.strict ==> r == Err::<(), BundleError>(BundleError::MissingDependency),
            !self.strict ==> r is Ok,
    {
        if self.strict {
            Err(BundleError::MissingDependency)
        } else {
            Ok(())
        }
    }

    /// The rendered library: the blocks of the root's children, in order of
    /// name, with no wrapper of its own.
    pub fn finish(&self) -> (r: String)
        requires
            self.inv(),
        ensures
            r@ == self.tree.rendered(None),
    {
        let mut out = String::new();
        self.tree.to_tokens(None, &mut out);
        out
    }
}

/// Once the queue is empty, every key reached from the entry keys along the
/// references of the loaded files has been visited.
pub proof fn lemma_closure_complete(b: Bundle)
    requires
        b.inv(),
        b.queue@.len() == 0,
    ensures
        forall|k: PathView| reachable(b.entries@, b.deps@, k) ==> b.visited.deep_view().contains(k),
{
    assert forall|k: PathView| reachable(b.entries@, b.deps@, k) implies b.visited.deep_view().contains(k) by {
        let n = choose|n: nat| #[trigger] reach(b.entries@, b.deps@, n).contains(k);
        lemma_reach_visited(b, n);
    }
}

proof fn lemma_reach_visited(b: Bundle, n: nat)
    requires
        b.inv(),
        b.queue@.len() == 0,
    ensures
        forall|k: PathView| reach(b.entries@, b.deps@, n).contains(k) ==> b.visited.deep_view().contains(k),
    decreases n,
{
    assert(b.queue.deep_view().len() == 0);
    if n == 0 {
        assert forall|k: PathView| reach(b.entries@, b.deps@, n).contains(k) implies b.visited.deep_view().contains(k) by {
            assert(b.known(k));
        }
    } else {
        lemma_reach_visited(b, (n - 1) as nat);
        assert forall|k: PathView| reach(b.entries@, b.deps@, n).contains(k) implies b.visited.deep_view().contains(k) by {
            let r = reach(b.entries@, b.deps@, (n - 1) as nat);
            if !r.contains(k) {
                let j = choose|j: PathView| r.contains(j) && b.deps@.dom().contains(j) && #[trigger] b.deps@[j].contains(k);
                assert(b.known(k));
            }
        }
    }
}

/// Every key ever visited is reached from the entry keys along the
/// references of the loaded files: no other file is read.
pub proof fn lemma_closure_minimal(b: Bundle)
    requires
        b.inv(),
    ensures
        forall|k: PathView| b.visited.deep_view().contains(k) ==> reachable(b.entries@, b.deps@, k),
{
    assert forall|k: PathView| b.visited.deep_view().contains(k) implies reachable(b.entries@, b.deps@, k) by {
        assert(b.known(k));
    }
}

} // verus!
