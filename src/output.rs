use vstd::prelude::*;
use crate::bundle::{entry_leaves, target_leaves, Bundle, SourceFile};
use crate::utf16::chars_of;

verus! {

/// `s` with every occurrence of `pat` replaced by `rep`, scanning from the
/// left and never overlapping.
pub open spec fn replaced(s: Seq<char>, pat: Seq<char>, rep: Seq<char>) -> Seq<char>
    decreases s.len(),
{
    if s.len() == 0 {
        seq![]
    } else if pat.len() > 0 && pat.len() <= s.len() && s.subrange(0, pat.len() as int) == pat {
        rep + replaced(s.skip(pat.len() as int), pat, rep)
    } else {
        seq![s[0]] + replaced(s.skip(1), pat, rep)
    }
}

/// The submission address for a problem: every `{problem_id}` in the
/// configured address template replaced by the problem's id.
pub fn submit_url(template: &str, problem_id: &str) -> (r: String)
    ensures
        r@ == replaced(template@, "{problem_id}"@, problem_id@),
{
    replace_all(template, "{problem_id}", problem_id)
}

/// Whether `c` can be part of an identifier (ASCII letters, digits, `_`).
pub open spec fn is_ident_char(c: char) -> bool {
    ('a' <= c && c <= 'z') || ('A' <= c && c <= 'Z') || ('0' <= c && c <= '9') || c == '_'
}

/// `s` with every occurrence of `pat` that does not continue an identifier
/// replaced by `rep`, scanning from the left and never overlapping;
/// `after_ident` tells whether the text before `s` ends inside an identifier.
pub open spec fn replaced_at_word(s: Seq<char>, pat: Seq<char>, rep: Seq<char>, after_ident: bool) -> Seq<char>
    decreases s.len(),
{
    if s.len() == 0 {
        seq![]
    } else if !after_ident && pat.len() > 0 && pat.len() <= s.len() && s.subrange(0, pat.len() as int) == pat {
        rep + replaced_at_word(s.skip(pat.len() as int), pat, rep, is_ident_char(pat.last()))
    } else {
        seq![s[0]] + replaced_at_word(s.skip(1), pat, rep, is_ident_char(s[0]))
    }
}

/// A self-reference as formatted source writes it.
pub open spec fn self_ref() -> Seq<char> {
    "crate::"@
}

/// A self-reference as a printed token stream writes it.
pub open spec fn spaced_self_ref() -> Seq<char> {
    "crate :: "@
}

/// The first after the rewrite: rooted at the module `root` that the library
/// now is.
pub open spec fn nested_ref(root: Seq<char>) -> Seq<char> {
    "crate::"@ + root + "::"@
}

/// The second after the rewrite.
pub open spec fn spaced_nested_ref(root: Seq<char>) -> Seq<char> {
    "crate :: "@ + root + " :: "@
}

/// The library text with its self-references, in either form, rooted at
/// the module `root`.
pub open spec fn rooted(lib: Seq<char>, root: Seq<char>) -> Seq<char> {
    replaced_at_word(
        replaced_at_word(lib, self_ref(), nested_ref(root), false),
        spaced_self_ref(),
        spaced_nested_ref(root),
        false,
    )
}

/// The line that parts the target's text from the library's.
pub open spec fn separator() -> Seq<char> {
    "\n\n// ===== bundled library =====\n\n"@
}

/// The merged file: target text, separator, rewritten library text, and a
/// final line break.
pub open spec fn merged(target: Seq<char>, lib: Seq<char>, root: Seq<char>) -> Seq<char> {
    target + separator() + rooted(lib, root) + "\n"@
}

/// Relies on `String: FromIterator<char>`: the characters in order.
#[verifier::external_body]
fn string_of(v: &Vec<char>) -> (r: String)
    ensures
        r@ == v@,
{
    v.iter().collect()
}

fn matches_at(x: &Vec<char>, i: usize, p: &Vec<char>) -> (r: bool)
    requires
        i <= x@.len(),
    ensures
        r == (p@.len() <= x@.len() - i && x@.subrange(i as int, i + p@.len()) == p@),
{
    if p.len() > x.len() - i {
        return false;
    }
    let mut j: usize = 0;
    while j < p.len()
        invariant
            i + p@.len() <= x@.len(),
            x@.len() <= usize::MAX,
            j <= p@.len(),
            forall|t: int| 0 <= t < j ==> x@[i + t] == p@[t],
        decreases p@.len() - j,
    {
        if x[i + j] != p[j] {
            assert(x@.subrange(i as int, i + p@.len())[j as int] != p@[j as int]);
            return false;
        }
        j = j + 1;
    }
    assert(x@.subrange(i as int, i + p@.len()) =~= p@);
    true
}

/// Replaces every occurrence of `pat` in `s` by `rep` (see `replaced`).
pub fn replace_all(s: &str, pat: &str, rep: &str) -> (r: String)
    ensures
        r@ == replaced(s@, pat@, rep@),
{
    let x = chars_of(s);
    let p = chars_of(pat);
    let q = chars_of(rep);
    let mut out: Vec<char> = Vec::new();
    let mut i: usize = 0;
    proof {
        assert(x@.skip(0) =~= x@);
    }
    while i < x.len()
        invariant
            i <= x@.len(),
            x@ == s@,
            p@ == pat@,
            q@ == rep@,
            replaced(s@, pat@, rep@) == out@ + replaced(x@.skip(i as int), p@, q@),
        decreases x@.len() - i,
    {
        let ghost rest = x@.skip(i as int);
        if p.len() > 0 && matches_at(&x, i, &p) {
            proof {
                assert(rest.subrange(0, p@.len() as int) =~= x@.subrange(i as int, i + p@.len()));
                assert(rest.skip(p@.len() as int) =~= x@.skip(i + p@.len()));
            }
            let ghost o0 = out@;
            let mut j: usize = 0;
            while j < q.len()
                invariant
                    j <= q@.len(),
                    out@ == o0 + q@.subrange(0, j as int),
                decreases q@.len() - j,
            {
                out.push(q[j]);
                proof {
                    assert(out@ =~= o0 + q@.subrange(0, j + 1));
                }
                j = j + 1;
            }
            proof {
                assert(q@.subrange(0, q@.len() as int) =~= q@);
                assert(out@ + replaced(x@.skip(i + p@.len()), p@, q@) =~= o0 + (q@ + replaced(x@.skip(i + p@.len()), p@, q@)));
            }
            i = i + p.len();
        } else {
            proof {
                if p@.len() > 0 && p@.len() <= rest.len() {
                    assert(rest.subrange(0, p@.len() as int) =~= x@.subrange(i as int, i + p@.len()));
                }
                assert(rest.skip(1) =~= x@.skip(i + 1));
                assert(rest[0] == x@[i as int]);
            }
            let ghost o0 = out@;
            out.push(x[i]);
            proof {
                assert(out@ + replaced(x@.skip(i + 1), p@, q@) =~= o0 + (seq![x@[i as int]] + replaced(x@.skip(i + 1), p@, q@)));
            }
            i = i + 1;
        }
    }
    proof {
        assert(x@.skip(i as int).len() == 0);
        assert(out@ + seq![] =~= out@);
    }
    string_of(&out)
}

fn ident_char(c: char) -> (r: bool)
    ensures
        r == is_ident_char(c),
{
    ('a' <= c && c <= 'z') || ('A' <= c && c <= 'Z') || ('0' <= c && c <= '9') || c == '_'
}

/// Replaces every occurrence of `pat` in `s` that does not continue an
/// identifier by `rep` (see `replaced_at_word`).
pub fn replace_at_word(s: &str, pat: &str, rep: &str) -> (r: String)
    ensures
        r@ == replaced_at_word(s@, pat@, rep@, false),
{
    let x = chars_of(s);
    let p = chars_of(pat);
    let q = chars_of(rep);
    let mut out: Vec<char> = Vec::new();
    let mut i: usize = 0;
    let mut after: bool = false;
    proof {
        assert(x@.skip(0) =~= x@);
    }
    while i < x.len()
        invariant
            i <= x@.len(),
            x@ == s@,
            p@ == pat@,
            q@ == rep@,
            replaced_at_word(s@, pat@, rep@, false) == out@ + replaced_at_word(x@.skip(i as int), p@, q@, after),
        decreases x@.len() - i,
    {
        let ghost rest = x@.skip(i as int);
        if !after && p.len() > 0 && matches_at(&x, i, &p) {
            proof {
                assert(rest.subrange(0, p@.len() as int) =~= x@.subrange(i as int, i + p@.len()));
                assert(rest.skip(p@.len() as int) =~= x@.skip(i + p@.len()));
            }
            let ghost o0 = out@;
            let mut j: usize = 0;
            while j < q.len()
                invariant
                    j <= q@.len(),
                    out@ == o0 + q@.subrange(0, j as int),
                decreases q@.len() - j,
            {
                out.push(q[j]);
                proof {
                    assert(out@ =~= o0 + q@.subrange(0, j + 1));
                }
                j = j + 1;
            }
            let na = ident_char(p[p.len() - 1]);
            proof {
                assert(q@.subrange(0, q@.len() as int) =~= q@);
                assert(out@ + replaced_at_word(x@.skip(i + p@.len()), p@, q@, na) =~= o0 + (q@
                    + replaced_at_word(x@.skip(i + p@.len()), p@, q@, na)));
            }
            i = i + p.len();
            after = na;
        } else {
            proof {
                if p@.len() > 0 && p@.len() <= rest.len() {
                    assert(rest.subrange(0, p@.len() as int) =~= x@.subrange(i as int, i + p@.len()));
                }
                assert(rest.skip(1) =~= x@.skip(i + 1));
                assert(rest[0] == x@[i as int]);
            }
            let ghost o0 = out@;
            let c = x[i];
            out.push(c);
            proof {
                assert(out@ + replaced_at_word(x@.skip(i + 1), p@, q@, is_ident_char(c)) =~= o0 + (seq![c]
                    + replaced_at_word(x@.skip(i + 1), p@, q@, is_ident_char(c))));
            }
            after = ident_char(c);
            i = i + 1;
        }
    }
    proof {
        assert(x@.skip(i as int).len() == 0);
        assert(out@ + seq![] =~= out@);
    }
    string_of(&out)
}

/// Rewrites the library's self-references, `crate::` as formatted source
/// writes it and `crate :: ` as a printed token stream writes it, so that
/// they go through the module `root` under which the library now lives.
/// A `crate` that ends a longer identifier is left alone.
pub fn rewrite_self_refs(lib: &str, root: &String) -> (r: String)
    ensures
        r@ == rooted(lib@, root@),
{
    let mut rep = String::from_str("crate::");
    rep.append(root.as_str());
    rep.append("::");
    let once = replace_at_word(lib, "crate::", rep.as_str());
    let mut rep2 = String::from_str("crate :: ");
    rep2.append(root.as_str());
    rep2.append(" :: ");
    replace_at_word(once.as_str(), "crate :: ", rep2.as_str())
}

/// The merged file. `pretty` is the formatted library text where the
/// formatter accepted the rendering; where it did not, the rendering `raw`
/// is used as it is.
pub fn compose_output(target: &String, pretty: Option<String>, raw: &String, root: &String) -> (r: String)
    ensures
        pretty is Some ==> r@ == merged(target@, pretty->0@, root@),
        pretty is None ==> r@ == merged(target@, raw@, root@),
{
    let lib = match pretty {
        Some(p) => p,
        None => raw.clone(),
    };
    let rewritten = rewrite_self_refs(lib.as_str(), root);
    let mut out = target.clone();
    out.append("\n\n// ===== bundled library =====\n\n");
    out.append(rewritten.as_str());
    out.append("\n");
    out
}

/// How a run begins: either the target needs nothing of the library and is
/// the output as it is, or a closure run is started.
pub enum Start {
    Passthrough(String),
    Run(Bundle),
}

/// Begins a run on the target's text and parsed file. Where the target makes
/// no reference into the library `root`, the output is the target's text,
/// unchanged; else a run starts from the keys of its references.
pub fn start(target: String, file: &SourceFile, root: String, strict: bool) -> (r: Start)
    ensures
        entry_leaves(file.uses@, root@, file.uses@.len()).len() == 0 <==> r is Passthrough,
        r matches Start::Passthrough(t) ==> t@ == target@,
        r matches Start::Run(b) ==> {
            &&& b.inv()
            &&& b.root@ == root@
            &&& b.strict == strict
            &&& b.visited@.len() == 0
            &&& b.queue.deep_view() == crate::bundle::keys_of(entry_leaves(file.uses@, root@, file.uses@.len()))
            &&& b.deps@.dom().len() == 0
            &&& b.tree.code is None
            &&& b.tree.names@.len() == 0
            &&& b.entries@ == crate::bundle::keys_of(entry_leaves(file.uses@, root@, file.uses@.len())).to_set()
        },
{
    let leaves = target_leaves(file, &root);
    if leaves.len() == 0 {
        Start::Passthrough(target)
    } else {
        Start::Run(Bundle::new(root, strict, leaves))
    }
}

} // verus!
