use vstd::prelude::*;
use crate::paths::PathView;

verus! {

/// Where the file of module key `segs` lies, relative to the library's root
/// directory. The first segment, the library's own name, is dropped. For a
/// key below the root: `a/b.rs` where that plain file exists, else the
/// directory form `a/b/mod.rs`. For the root itself: `lib.rs` where that
/// plain file exists, else `mod.rs`.
pub open spec fn file_of(segs: PathView, plain_exists: bool) -> PathView {
    if segs.len() <= 1 {
        if plain_exists {
            seq!["lib.rs"@]
        } else {
            seq!["mod.rs"@]
        }
    } else if plain_exists {
        segs.subrange(1, segs.len() - 1).push(segs.last() + ".rs"@)
    } else {
        segs.skip(1).push("mod.rs"@)
    }
}

/// The location of the file that holds module key `segs` (see `file_of`);
/// `plain_exists` tells whether the plain file exists.
pub fn lib_file(segs: &[String], plain_exists: bool) -> (r: Vec<String>)
    ensures
        r.deep_view() == file_of(segs.deep_view(), plain_exists),
{
    let n = segs.len();
    if n <= 1 {
        let mut r: Vec<String> = Vec::new();
        let f = if plain_exists { String::from_str("lib.rs") } else { String::from_str("mod.rs") };
        r.push(f);
        proof {
            assert(r.deep_view() =~= seq![f@]);
        }
        return r;
    }
    let stop = if plain_exists { n - 1 } else { n };
    let mut r: Vec<String> = Vec::new();
    let mut i: usize = 1;
    while i < stop
        invariant
            1 <= i <= stop,
            stop <= n,
            n == segs@.len(),
            r.deep_view() == segs.deep_view().subrange(1, i as int),
        decreases stop - i,
    {
        let ghost before = r.deep_view();
        let s = segs[i].clone();
        r.push(s);
        proof {
            assert(r.deep_view() =~= before.push(s@));
            assert(r.deep_view() =~= segs.deep_view().subrange(1, i + 1));
        }
        i = i + 1;
    }
    let ghost before = r.deep_view();
    if plain_exists {
        let mut last = segs[n - 1].clone();
        last.append(".rs");
        r.push(last);
        proof {
            assert(r.deep_view() =~= before.push(last@));
        }
    } else {
        let m = String::from_str("mod.rs");
        r.push(m);
        proof {
            assert(r.deep_view() =~= before.push(m@));
            assert(segs.deep_view().skip(1) =~= segs.deep_view().subrange(1, n as int));
        }
    }
    r
}

} // verus!
