//! File paths as the raw bytes of an operating-system path.
//!
//! Paths are kept as byte strings so that file names which are not valid
//! UTF-8 survive every operation unchanged. The separator is `/`. The
//! component rules are those of a Unix path: a leading `/` is the root, empty
//! segments and `.` segments are skipped, except that a relative path which
//! begins with `.` keeps that current-directory marker as its first component.
use vstd::prelude::*;

verus! {

/// The separator byte `/`.
pub open spec fn sep() -> u8 {
    47u8
}

/// The byte `.`.
pub open spec fn dot() -> u8 {
    46u8
}

/// Whether a segment between separators is kept as a component.
pub open spec fn kept_segment(seg: Seq<u8>) -> bool {
    seg.len() > 0 && seg != seq![dot()]
}

/// The components completed so far, and the segment still being read,
/// after reading `p` from left to right.
pub open spec fn split_state(p: Seq<u8>) -> (Seq<Seq<u8>>, Seq<u8>)
    decreases p.len(),
{
    if p.len() == 0 {
        (Seq::empty(), Seq::empty())
    } else {
        let (done, cur) = split_state(p.drop_last());
        if p.last() == sep() {
            (if kept_segment(cur) { done.push(cur) } else { done }, Seq::empty())
        } else {
            (done, cur.push(p.last()))
        }
    }
}

/// The segments of `p` that count as components, in order.
pub open spec fn body_components(p: Seq<u8>) -> Seq<Seq<u8>> {
    let (done, cur) = split_state(p);
    if kept_segment(cur) {
        done.push(cur)
    } else {
        done
    }
}

/// Whether `p` starts at the root directory.
pub open spec fn has_root(p: Seq<u8>) -> bool {
    p.len() > 0 && p[0] == sep()
}

/// Whether `p` keeps a leading current-directory component.
pub open spec fn leading_cur_dir(p: Seq<u8>) -> bool {
    &&& !has_root(p)
    &&& p.len() > 0
    &&& p[0] == dot()
    &&& (p.len() == 1 || p[1] == sep())
}

/// The components of a path. The root is written `/`, the current directory
/// `.`; every other component is the bytes of its segment.
pub open spec fn path_components(p: Seq<u8>) -> Seq<Seq<u8>> {
    if has_root(p) {
        seq![seq![sep()]] + body_components(p)
    } else if leading_cur_dir(p) {
        seq![seq![dot()]] + body_components(p)
    } else {
        body_components(p)
    }
}

/// Whether the components of `base` are a prefix of those of `path`.
pub open spec fn path_starts_with(path: Seq<u8>, base: Seq<u8>) -> bool {
    let pc = path_components(path);
    let bc = path_components(base);
    bc.len() <= pc.len() && pc.take(bc.len() as int) == bc
}

/// Compares two byte strings.
pub fn bytes_equal(a: &[u8], b: &[u8]) -> (r: bool)
    ensures
        r == (a@ == b@),
{
    if a.len() != b.len() {
        return false;
    }
    let mut i: usize = 0;
    while i < a.len()
        invariant
            a.len() == b.len(),
            0 <= i <= a.len(),
            forall|j: int| 0 <= j < i ==> a@[j] == b@[j],
        decreases a.len() - i,
    {
        if a[i] != b[i] {
            return false;
        }
        i = i + 1;
    }
    assert(a@ =~= b@);
    true
}

/// Copies a byte string.
pub fn copy_bytes(a: &[u8]) -> (r: Vec<u8>)
    ensures
        r@ == a@,
{
    let mut out: Vec<u8> = Vec::new();
    let mut i: usize = 0;
    while i < a.len()
        invariant
            0 <= i <= a.len(),
            out@ == a@.take(i as int),
        decreases a.len() - i,
    {
        out.push(a[i]);
        i = i + 1;
        assert(out@ =~= a@.take(i as int));
    }
    assert(a@.take(a.len() as int) =~= a@);
    out
}

/// The components of a path, as described by [`path_components`].
pub fn components(p: &[u8]) -> (r: Vec<Vec<u8>>)
    ensures
        r@.len() == path_components(p@).len(),
        forall|i: int| 0 <= i < r@.len() ==> #[trigger] r@[i]@ == path_components(p@)[i],
{
    let mut done: Vec<Vec<u8>> = Vec::new();
    let mut cur: Vec<u8> = Vec::new();
    let mut i: usize = 0;
    while i < p.len()
        invariant
            0 <= i <= p.len(),
            done@.len() == split_state(p@.take(i as int)).0.len(),
            forall|k: int|
                0 <= k < done@.len() ==> #[trigger] done@[k]@ == split_state(
                    p@.take(i as int),
                ).0[k],
            cur@ == split_state(p@.take(i as int)).1,
        decreases p.len() - i,
    {
        let b = p[i];
        assert(p@.take(i + 1).drop_last() =~= p@.take(i as int));
        if b == 47u8 {
            let keep = cur.len() > 0 && !(cur.len() == 1 && cur[0] == 46u8);
            assert(keep == kept_segment(cur@)) by {
                if cur@.len() == 1 && cur@[0] == dot() {
                    assert(cur@ =~= seq![dot()]);
                }
            }
            if keep {
                let seg = cur;
                done.push(seg);
            }
            cur = Vec::new();
        } else {
            cur.push(b);
        }
        i = i + 1;
    }
    assert(p@.take(p.len() as int) =~= p@);
    let keep = cur.len() > 0 && !(cur.len() == 1 && cur[0] == 46u8);
    assert(keep == kept_segment(cur@)) by {
        if cur@.len() == 1 && cur@[0] == dot() {
            assert(cur@ =~= seq![dot()]);
        }
    }
    if keep {
        done.push(cur);
    }
    let root = p.len() > 0 && p[0] == 47u8;
    let curdir = !root && p.len() > 0 && p[0] == 46u8 && (p.len() == 1 || p[1] == 47u8);
    if root || curdir {
        let mut out: Vec<Vec<u8>> = Vec::new();
        if root {
            out.push(vec![47u8]);
        } else {
            out.push(vec![46u8]);
        }
        let ghost first = out@[0]@;
        let mut j: usize = 0;
        while j < done.len()
            invariant
                0 <= j <= done@.len(),
                out@.len() == j + 1,
                out@[0]@ == first,
                forall|k: int| 1 <= k <= j ==> #[trigger] out@[k]@ == done@[k - 1]@,
            decreases done@.len() - j,
        {
            let c = copy_bytes(done[j].as_slice());
            out.push(c);
            j = j + 1;
        }
        assert(first == path_components(p@)[0]);
        out
    } else {
        done
    }
}

/// Whether `path` lies under `base`, comparing whole components:
/// `/a/b` starts with `/a`, but `/ab` does not.
pub fn starts_with(path: &[u8], base: &[u8]) -> (r: bool)
    ensures
        r == path_starts_with(path@, base@),
{
    let pc = components(path);
    let bc = components(base);
    let ghost pcs = path_components(path@);
    let ghost bcs = path_components(base@);
    if bc.len() > pc.len() {
        return false;
    }
    let mut i: usize = 0;
    while i < bc.len()
        invariant
            pcs == path_components(path@),
            bcs == path_components(base@),
            bc@.len() <= pc@.len(),
            0 <= i <= bc@.len(),
            bc@.len() == bcs.len(),
            pc@.len() == pcs.len(),
            forall|k: int| 0 <= k < bc@.len() ==> #[trigger] bc@[k]@ == bcs[k],
            forall|k: int| 0 <= k < pc@.len() ==> #[trigger] pc@[k]@ == pcs[k],
            forall|k: int| 0 <= k < i ==> pcs[k] == bcs[k],
        decreases bc@.len() - i,
    {
        if !bytes_equal(pc[i].as_slice(), bc[i].as_slice()) {
            assert(pcs.take(bcs.len() as int)[i as int] != bcs[i as int]);
            assert(pcs.take(bcs.len() as int) != bcs);
            return false;
        }
        i = i + 1;
    }
    assert(pcs.take(bcs.len() as int) =~= bcs);
    true
}

/// Whether two paths have the same components, so that `/a/b/` and
/// `/a//b` name the same directory.
pub fn same_path(a: &[u8], b: &[u8]) -> (r: bool)
    ensures
        r == (path_components(a@) == path_components(b@)),
{
    let n = components(a).len();
    let m = components(b).len();
    if n != m {
        return false;
    }
    let r = starts_with(a, b);
    proof {
        let ac = path_components(a@);
        assert(ac.take(ac.len() as int) =~= ac);
    }
    r
}

/// A path lies under a directory exactly when the directory's components
/// open the path's components, one whole component at a time: a directory
/// with more components than the path never holds it, and `/data/a.jpg` does
/// not lie under `/backup/photos/keep`.
pub proof fn law_under_is_a_component_prefix(path: Seq<u8>, dir: Seq<u8>)
    ensures
        path_starts_with(path, dir) <==> {
            &&& path_components(dir).len() <= path_components(path).len()
            &&& forall|i: int|
                0 <= i < path_components(dir).len() ==> #[trigger] path_components(path)[i]
                    == path_components(dir)[i]
        },
        path_components(dir).len() > path_components(path).len() ==> !path_starts_with(path, dir),
        path_starts_with(path, path),
{
    let pc = path_components(path);
    let dc = path_components(dir);
    if dc.len() <= pc.len() {
        if forall|i: int| 0 <= i < dc.len() ==> #[trigger] pc[i] == dc[i] {
            assert(pc.take(dc.len() as int) =~= dc);
        }
        if pc.take(dc.len() as int) == dc {
            assert forall|i: int| 0 <= i < dc.len() implies #[trigger] pc[i] == dc[i] by {
                assert(pc.take(dc.len() as int)[i] == pc[i]);
            }
        }
    }
    assert(pc.take(pc.len() as int) =~= pc);
}

} // verus!
