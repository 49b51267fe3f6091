use vstd::prelude::*;

verus! {

/// A module or import path, as the sequence of its segment names.
pub type PathView = Seq<Seq<char>>;

/// One node of an import declaration's tree.
pub enum UseTree {
    /// `seg::<subtree>`
    Path(String, Box<UseTree>),
    /// `{a, b, ...}`
    Group(Vec<UseTree>),
    /// A plain name.
    Name(String),
    /// `name as alias`
    Rename(String, String),
    /// `*`
    Glob,
}

/// The leaf paths of a tree under `prefix`, in the order of the tree.
pub open spec fn leaves(prefix: PathView, t: UseTree) -> Seq<PathView>
    decreases t, 0nat,
{
    match t {
        UseTree::Path(seg, sub) => leaves(prefix.push(seg@), *sub),
        UseTree::Group(items) => group_leaves(prefix, items, items@.len()),
        UseTree::Name(n) => seq![prefix.push(n@)],
        UseTree::Rename(n, _) => seq![prefix.push(n@)],
        UseTree::Glob => seq![],
    }
}

/// The leaf paths of the first `n` members of a group under `prefix`.
pub open spec fn group_leaves(prefix: PathView, items: Vec<UseTree>, n: nat) -> Seq<PathView>
    decreases items, n,
{
    if n == 0 || n > items@.len() {
        seq![]
    } else {
        group_leaves(prefix, items, (n - 1) as nat) + leaves(prefix, items@[n - 1])
    }
}

/// Whether a tree holds no plain or renamed member, only paths, groups and
/// globs.
pub open spec fn nameless(t: UseTree) -> bool
    decreases t, 0nat,
{
    match t {
        UseTree::Path(_, sub) => nameless(*sub),
        UseTree::Group(items) => group_nameless(items, items@.len()),
        UseTree::Name(_) => false,
        UseTree::Rename(_, _) => false,
        UseTree::Glob => true,
    }
}

/// Whether the first `n` members of a group are all nameless.
pub open spec fn group_nameless(items: Vec<UseTree>, n: nat) -> bool
    decreases items, n,
{
    if n == 0 || n > items@.len() {
        true
    } else {
        group_nameless(items, (n - 1) as nat) && nameless(items@[n - 1])
    }
}

/// A tree without plain or renamed members yields no leaf.
pub proof fn lemma_nameless_no_leaves(prefix: PathView, t: UseTree)
    requires
        nameless(t),
    ensures
        leaves(prefix, t).len() == 0,
    decreases t, 0nat,
{
    match t {
        UseTree::Path(seg, sub) => {
            lemma_nameless_no_leaves(prefix.push(seg@), *sub);
        },
        UseTree::Group(items) => {
            lemma_group_nameless_no_leaves(prefix, items, items@.len());
        },
        _ => {},
    }
}

proof fn lemma_group_nameless_no_leaves(prefix: PathView, items: Vec<UseTree>, n: nat)
    requires
        group_nameless(items, n),
    ensures
        group_leaves(prefix, items, n).len() == 0,
    decreases items, n,
{
    if n > 0 && n <= items@.len() {
        lemma_group_nameless_no_leaves(prefix, items, (n - 1) as nat);
        vstd::std_specs::vec::axiom_vec_index_decreases(items, n - 1);
        lemma_nameless_no_leaves(prefix, items@[n - 1]);
    }
}

/// Copies a path segment by segment.
pub fn copy_path(p: &Vec<String>) -> (r: Vec<String>)
    ensures
        r.deep_view() == p.deep_view(),
{
    let mut r: Vec<String> = Vec::new();
    let mut i: usize = 0;
    while i < p.len()
        invariant
            i <= p@.len(),
            r.deep_view() == p.deep_view().subrange(0, i as int),
        decreases p@.len() - i,
    {
        let ghost old_r = r.deep_view();
        let s = p[i].clone();
        assert(s@ == p.deep_view()[i as int]);
        r.push(s);
        proof {
            assert(r.deep_view() =~= old_r.push(s@));
            assert(r.deep_view() =~= p.deep_view().subrange(0, i + 1));
        }
        i = i + 1;
    }
    proof {
        assert(r.deep_view() =~= p.deep_view());
    }
    r
}

/// Flattens an import tree: appends to `out` every leaf path under `prefix`,
/// glob members giving none and renamed members the name before `as`.
/// `prefix` is left as it was.
pub fn collect_leaves(t: &UseTree, prefix: &mut Vec<String>, out: &mut Vec<Vec<String>>)
    ensures
        final(prefix).deep_view() == old(prefix).deep_view(),
        final(out).deep_view() == old(out).deep_view() + leaves(old(prefix).deep_view(), *t),
    decreases t,
{
    let ghost pre = prefix.deep_view();
    let ghost start = out.deep_view();
    match t {
        UseTree::Path(seg, sub) => {
            prefix.push(seg.clone());
            proof {
                assert(prefix.deep_view() =~= pre.push(seg@));
            }
            collect_leaves(&**sub, prefix, out);
            let ghost mid = prefix.deep_view();
            prefix.pop();
            proof {
                assert(prefix.deep_view() =~= mid.drop_last());
                assert(mid.drop_last() =~= pre);
            }
        },
        UseTree::Group(items) => {
            let mut i: usize = 0;
            while i < items.len()
                invariant
                    i <= items@.len(),
                    *t == UseTree::Group(*items),
                    prefix.deep_view() == pre,
                    out.deep_view() == start + group_leaves(pre, *items, i as nat),
                decreases items@.len() - i,
            {
                proof {
                    vstd::std_specs::vec::axiom_vec_index_decreases(*items, i as int);
                    assert(decreases_to!(*t => (*t)->Group_0));
                    assert(decreases_to!(*t => items[i as int]));
                }
                collect_leaves(&items[i], prefix, out);
                proof {
                    assert(group_leaves(pre, *items, (i + 1) as nat)
                        == group_leaves(pre, *items, i as nat) + leaves(pre, items@[i as int]));
                }
                i = i + 1;
            }
        },
        UseTree::Name(n) => {
            let mut full = copy_path(prefix);
            full.push(n.clone());
            proof {
                assert(full.deep_view() =~= pre.push(n@));
            }
            out.push(full);
            proof {
                assert(out.deep_view() =~= start + seq![pre.push(n@)]);
            }
        },
        UseTree::Rename(n, _) => {
            let mut full = copy_path(prefix);
            full.push(n.clone());
            proof {
                assert(full.deep_view() =~= pre.push(n@));
            }
            out.push(full);
            proof {
                assert(out.deep_view() =~= start + seq![pre.push(n@)]);
            }
        },
        UseTree::Glob => {
            proof {
                assert(out.deep_view() =~= start + seq![]);
            }
        },
    }
}

} // verus!
