//! Canonical absolute paths and the pure path resolver.
//!
//! A canonical path is a sequence of normalized segments; the root is the
//! empty sequence. The resolver combines a current directory with a typed
//! path fragment (which may contain `/`, `.` and `..`) into a canonical path.

use vstd::prelude::*;

verus! {

/// One normalized segment of a canonical path: nonempty, not a self or
/// parent marker, and free of the separator character.
pub open spec fn seg_wf(s: Seq<char>) -> bool {
    &&& s.len() > 0
    &&& s != seq!['.']
    &&& s != seq!['.', '.']
    &&& forall|i: int| 0 <= i < s.len() ==> s[i] != '/'
}

/// A canonical path is well formed when every segment is.
pub open spec fn path_wf(p: Seq<Seq<char>>) -> bool {
    forall|i: int| 0 <= i < p.len() ==> seg_wf(#[trigger] p[i])
}

/// A raw segment read from a fragment never contains the separator.
pub open spec fn no_sep(s: Seq<char>) -> bool {
    forall|i: int| 0 <= i < s.len() ==> s[i] != '/'
}

/// Effect of one raw fragment segment on an accumulated canonical path:
/// empty and self segments are no-ops, a parent segment removes the last
/// segment (a no-op at the root), anything else is appended verbatim.
pub open spec fn apply_seg(acc: Seq<Seq<char>>, seg: Seq<char>) -> Seq<Seq<char>> {
    if seg.len() == 0 || seg == seq!['.'] {
        acc
    } else if seg == seq!['.', '.'] {
        if acc.len() == 0 {
            acc
        } else {
            acc.drop_last()
        }
    } else {
        acc.push(seg)
    }
}

/// Walk the remaining fragment text left to right; `seg` holds the raw
/// characters of the segment read so far.
pub open spec fn walk_frag(acc: Seq<Seq<char>>, seg: Seq<char>, rest: Seq<char>) -> Seq<
    Seq<char>,
>
    decreases rest.len(),
{
    if rest.len() == 0 {
        apply_seg(acc, seg)
    } else if rest[0] == '/' {
        walk_frag(apply_seg(acc, seg), seq![], rest.skip(1))
    } else {
        walk_frag(acc, seg.push(rest[0]), rest.skip(1))
    }
}

/// The canonical path denoted by `fragment` interpreted against the current
/// directory `current`: a leading separator resets to the root, and the
/// fragment's segments are then applied in order.
pub open spec fn spec_resolve(current: Seq<Seq<char>>, fragment: Seq<char>) -> Seq<Seq<char>> {
    if fragment.len() > 0 && fragment[0] == '/' {
        walk_frag(seq![], seq![], fragment.skip(1))
    } else {
        walk_frag(current, seq![], fragment)
    }
}

/// A canonical absolute path: the root is the empty segment list, and every
/// stored segment is normalized (no `.` or `..`, no separator, nonempty).
pub struct CanonPath {
    segs: Vec<String>,
}

impl View for CanonPath {
    type V = Seq<Seq<char>>;

    closed spec fn view(&self) -> Seq<Seq<char>> {
        Seq::new(self.segs@.len(), |i: int| self.segs@[i]@)
    }
}

impl CanonPath {
    /// Well-formedness: every segment is normalized.
    pub open spec fn wf(&self) -> bool {
        path_wf(self@)
    }

    /// The root path `/`.
    pub fn root() -> (r: CanonPath)
        ensures
            r@ == Seq::<Seq<char>>::empty(),
            r.wf(),
    {
        let r = CanonPath { segs: Vec::new() };
        proof {
            assert(r@ =~= Seq::<Seq<char>>::empty());
        }
        r
    }

    /// Whether this path is the root.
    pub fn is_root(&self) -> (r: bool)
        ensures
            r == (self@.len() == 0),
    {
        self.segs.len() == 0
    }

    /// The number of segments.
    pub fn depth(&self) -> (r: usize)
        ensures
            r == self@.len(),
    {
        self.segs.len()
    }

    /// Whether this path is an immediate child of `parent`: one segment
    /// deeper, agreeing with `parent` on everything but its last segment.
    pub fn is_child_of(&self, parent: &CanonPath) -> (r: bool)
        ensures
            r == (self@.len() == parent@.len() + 1 && self@.drop_last() == parent@),
    {
        if self.segs.len() == 0 || self.segs.len() - 1 != parent.segs.len() {
            return false;
        }
        let mut i: usize = 0;
        while i < parent.segs.len()
            invariant
                self@.len() == parent@.len() + 1,
                i <= parent@.len(),
                forall|k: int| 0 <= k < i ==> self@[k] == parent@[k],
            decreases parent@.len() - i,
        {
            let a = &self.segs[i];
            let b = &parent.segs[i];
            if !a.eq(b) {
                proof {
                    assert(self@.drop_last()[i as int] == self@[i as int]);
                    assert(self@.drop_last() != parent@);
                }
                return false;
            }
            i += 1;
        }
        proof {
            assert(self@.drop_last() =~= parent@);
        }
        true
    }

    /// The terminal name of a non-root path.
    pub fn last_name(&self) -> (r: String)
        requires
            self@.len() > 0,
        ensures
            r@ == self@.last(),
    {
        self.segs[self.segs.len() - 1].clone()
    }

    /// An owned copy of this path.
    pub fn duplicate(&self) -> (r: CanonPath)
        ensures
            r@ == self@,
    {
        let mut segs: Vec<String> = Vec::new();
        let mut i: usize = 0;
        while i < self.segs.len()
            invariant
                i <= self.segs@.len(),
                segs@.len() == i as int,
                forall|k: int| 0 <= k < i ==> segs@[k]@ == self.segs@[k]@,
            decreases self.segs@.len() - i,
        {
            segs.push(self.segs[i].clone());
            i += 1;
        }
        let r = CanonPath { segs };
        proof {
            assert(r@ =~= self@);
        }
        r
    }
}

impl CanonPath {
    /// Apply one raw fragment segment to this path, as `apply_seg` describes.
    fn apply_raw_seg(&mut self, seg: &String)
        requires
            old(self).wf(),
            no_sep(seg@),
        ensures
            final(self)@ == apply_seg(old(self)@, seg@),
            final(self).wf(),
    {
        let n = seg.as_str().unicode_len();
        if n == 0 {
            return ;
        }
        if n == 1 && seg.as_str().get_char(0) == '.' {
            proof {
                assert(seg@ =~= seq!['.']);
            }
            return ;
        }
        if n == 2 && seg.as_str().get_char(0) == '.' && seg.as_str().get_char(1) == '.' {
            proof {
                assert(seg@ =~= seq!['.', '.']);
            }
            if self.segs.len() > 0 {
                self.segs.pop();
                proof {
                    assert(self@ =~= old(self)@.drop_last());
                }
            }
            return ;
        }
        proof {
            assert(seg@ != seq!['.']);
            assert(seg@ != seq!['.', '.']);
            assert(seg_wf(seg@));
        }
        self.segs.push(seg.clone());
        proof {
            assert(self@ =~= old(self)@.push(seg@));
        }
    }
}

/// Resolve a typed path fragment against the current directory: a leading
/// separator resets to the root; `.` is a no-op; `..` removes the last
/// segment (a no-op at the root); every other segment is appended verbatim.
pub fn resolve(current: &CanonPath, fragment: &str) -> (r: CanonPath)
    requires
        current.wf(),
    ensures
        r@ == spec_resolve(current@, fragment@),
        r.wf(),
{
    let n = fragment.unicode_len();
    let mut acc: CanonPath;
    let mut i: usize;
    if n > 0 && fragment.get_char(0) == '/' {
        acc = CanonPath::root();
        i = 1;
    } else {
        acc = current.duplicate();
        i = 0;
        proof {
            assert(fragment@.skip(0) =~= fragment@);
        }
    }
    let mut seg = String::new();
    while i < n
        invariant
            i <= n,
            n == fragment@.len(),
            acc.wf(),
            no_sep(seg@),
            walk_frag(acc@, seg@, fragment@.skip(i as int)) == spec_resolve(current@, fragment@),
        decreases n - i,
    {
        let c = fragment.get_char(i);
        proof {
            assert(fragment@.skip(i as int)[0] == fragment@[i as int]);
            assert(fragment@.skip(i as int).skip(1) =~= fragment@.skip(i as int + 1));
        }
        if c == '/' {
            acc.apply_raw_seg(&seg);
            seg = String::new();
        } else {
            let piece = fragment.substring_char(i, i + 1);
            proof {
                assert(seg@ + piece@ =~= seg@.push(fragment@[i as int]));
            }
            seg.append(piece);
        }
        i += 1;
    }
    proof {
        assert(fragment@.skip(n as int) =~= Seq::<char>::empty());
    }
    acc.apply_raw_seg(&seg);
    acc
}

/// Rendering of a canonical path: `/` for the root, else every segment
/// followed by a separator, after a leading separator.
pub open spec fn spec_display(p: Seq<Seq<char>>) -> Seq<char>
    decreases p.len(),
{
    if p.len() == 0 {
        seq!['/']
    } else {
        spec_display(p.drop_last()) + p.last() + seq!['/']
    }
}

impl CanonPath {
    /// Render this canonical path as `/seg1/seg2/.../`.
    pub fn to_display_string(&self) -> (r: String)
        ensures
            r@ == spec_display(self@),
    {
        let mut out = "/".to_owned();
        proof {
            reveal_strlit("/");
            assert(out@ =~= seq!['/']);
            assert(self@.take(0) =~= Seq::<Seq<char>>::empty());
        }
        let mut i: usize = 0;
        while i < self.segs.len()
            invariant
                i <= self.segs@.len(),
                out@ == spec_display(self@.take(i as int)),
            decreases self.segs@.len() - i,
        {
            out.append(self.segs[i].as_str());
            out.append("/");
            proof {
                reveal_strlit("/");
                assert(self@.take(i as int + 1).drop_last() =~= self@.take(i as int));
                assert(self@.take(i as int + 1).last() == self@[i as int]);
                assert(out@ =~= spec_display(self@.take(i as int + 1)));
            }
            i += 1;
        }
        proof {
            assert(self@.take(self.segs@.len() as int) =~= self@);
        }
        out
    }
}

impl PartialEq for CanonPath {
    /// Two canonical paths are equal exactly when their segment sequences are.
    fn eq(&self, other: &CanonPath) -> (r: bool) {
        if self.segs.len() != other.segs.len() {
            proof {
                assert(self@.len() != other@.len());
            }
            return false;
        }
        let mut i: usize = 0;
        while i < self.segs.len()
            invariant
                i <= self.segs@.len(),
                self.segs@.len() == other.segs@.len(),
                forall|k: int| 0 <= k < i ==> self@[k] == other@[k],
            decreases self.segs@.len() - i,
        {
            let a = &self.segs[i];
            let b = &other.segs[i];
            if !a.eq(b) {
                proof {
                    assert(self@[i as int] != other@[i as int]);
                }
                return false;
            }
            i += 1;
        }
        proof {
            assert(self@ =~= other@);
        }
        true
    }
}

impl vstd::std_specs::cmp::PartialEqSpecImpl for CanonPath {
    open spec fn obeys_eq_spec() -> bool {
        true
    }

    open spec fn eq_spec(&self, other: &CanonPath) -> bool {
        self@ == other@
    }
}

} // verus!
