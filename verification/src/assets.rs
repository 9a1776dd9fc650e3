//! Where an embedder keeps toolkit data: an ordered read path and one
//! write target. The toolkit owns what is inside these directories and
//! never how they are found; a path is held as text, and whether a
//! directory or a file exists is asked of the caller, who owns the disk.

use vstd::prelude::*;
use crate::text::{chars_of, push_char, push_str, string_of, trim, trim_in};

verus! {

/// `PathBuf::join` on a Unix path held as text: an absolute `rel`
/// replaces `base`; otherwise one `'/'` separates the two unless `base`
/// is empty or already ends in one.
pub open spec fn join(base: Seq<char>, rel: Seq<char>) -> Seq<char> {
    if rel.len() > 0 && rel[0] == '/' {
        rel
    } else if base.len() > 0 && base.last() != '/' {
        base + seq!['/'] + rel
    } else {
        base + rel
    }
}

/// `base` joined with `rel`.
pub fn join_path(base: &str, rel: &str) -> (r: String)
    ensures
        r@ == join(base@, rel@),
{
    let b = chars_of(base);
    let r = chars_of(rel);
    if r.len() > 0 && r[0] == '/' {
        return string_of(&r, 0, r.len());
    }
    let mut out = string_of(&b, 0, b.len());
    if b.len() > 0 && b[b.len() - 1] != '/' {
        push_char(&mut out, '/');
    }
    push_str(&mut out, rel);
    assert(b@.subrange(0, b@.len() as int) == b@);
    assert(r@.subrange(0, r@.len() as int) == r@);
    out
}

/// `ask` was asked about a path spelled `path` and answered false.
pub open spec fn answered_false<F: Fn(&String) -> bool>(ask: F, path: Seq<char>) -> bool {
    exists|q: String| q@ == path && #[trigger] ask.ensures((&q,), false)
}

/// What [`AssetRoots::dirs`] answers for the read roots `read`: `sub`
/// under each root, in search order, keeping exactly those directories
/// `is_dir` answered true for.
pub open spec fn dirs_answer<F: Fn(&String) -> bool>(
    read: Seq<String>,
    sub: Seq<char>,
    is_dir: F,
    r: Seq<String>,
) -> bool {
    &&& exists|keep: Seq<int>|
        #![trigger keep.len()]
        {
            &&& keep.len() == r.len()
            &&& forall|k: int, l: int| 0 <= k < l < keep.len() ==> keep[k] < keep[l]
            &&& forall|k: int|
                0 <= k < keep.len() ==> 0 <= keep[k] < read.len() && (#[trigger] r[k])@ == join(
                    read[keep[k]]@,
                    sub,
                ) && is_dir.ensures((&r[k],), true)
        }
    &&& forall|i: int|
        #![trigger read[i]]
        0 <= i < read.len() ==> (exists|k: int| 0 <= k < r.len() && (#[trigger] r[k])@ == join(read[i]@, sub))
            || answered_false(is_dir, join(read[i]@, sub))
}

/// Read search path plus the one write target.
#[derive(Clone, Debug)]
pub struct AssetRoots {
    /// Read search path, most specific first. The first directory
    /// holding a given name wins.
    pub read: Vec<String>,
    /// The one directory anything is ever WRITTEN to.
    pub write: String,
}

impl AssetRoots {
    /// The `i`-th candidate for `<root>/<sub>/<rel>`, in search order.
    pub open spec fn candidate(&self, i: int, sub: Seq<char>, rel: Seq<char>) -> Seq<char> {
        join(join(self.read@[i]@, sub), rel)
    }

    pub fn new(read: Vec<String>, write: String) -> (r: Self)
        ensures
            r.read@ == read@,
            r.write@ == write@,
    {
        AssetRoots { read, write }
    }

    /// Where `sub` is written: no filesystem access, no creation.
    pub fn write_dir(&self, sub: &str) -> (r: String)
        ensures
            r@ == join(self.write@, sub@),
    {
        join_path(self.write.as_str(), sub)
    }

    /// The directories named `sub` under each read root, in search order,
    /// keeping exactly those for which `is_dir` answered true.
    pub fn dirs<F: Fn(&String) -> bool>(&self, sub: &str, is_dir: F) -> (r: Vec<String>)
        requires
            forall|p: &String| is_dir.requires((p,)),
        ensures
            dirs_answer(self.read@, sub@, is_dir, r@),
    {
        let mut out: Vec<String> = Vec::new();
        let ghost mut keep: Seq<int> = Seq::empty();
        let mut i: usize = 0;
        while i < self.read.len()
            invariant
                i <= self.read@.len(),
                forall|p: &String| is_dir.requires((p,)),
                keep.len() == out@.len(),
                forall|k: int, l: int| 0 <= k < l < keep.len() ==> keep[k] < keep[l],
                forall|k: int| 0 <= k < keep.len() ==> 0 <= #[trigger] keep[k] < i,
                forall|k: int|
                    0 <= k < keep.len() ==> (#[trigger] out@[k])@ == join(
                        self.read@[keep[k]]@,
                        sub@,
                    ) && is_dir.ensures((&out@[k],), true),
                forall|j: int|
                    #![trigger self.read@[j]]
                    0 <= j < i ==> (exists|k: int|
                        0 <= k < out@.len() && (#[trigger] out@[k])@ == join(self.read@[j]@, sub@))
                        || answered_false(is_dir, join(self.read@[j]@, sub@)),
            decreases self.read.len() - i,
        {
            let d = join_path(self.read[i].as_str(), sub);
            let yes = is_dir(&d);
            let ghost old_out = out@;
            let ghost old_keep = keep;
            if yes {
                proof {
                    keep = keep.push(i as int);
                }
                out.push(d);
                assert forall|k: int, l: int| 0 <= k < l < keep.len() implies keep[k] < keep[l] by {
                    if l < old_keep.len() {
                        assert(keep[k] == old_keep[k] && keep[l] == old_keep[l]);
                    } else {
                        assert(keep[k] == old_keep[k]);
                    }
                }
                assert forall|k: int| 0 <= k < keep.len() implies 0 <= #[trigger] keep[k] < i + 1 by {
                    if k < old_keep.len() {
                        assert(keep[k] == old_keep[k]);
                    }
                }
                assert forall|k: int|
                    0 <= k < keep.len() implies (#[trigger] out@[k])@
                    == join(self.read@[keep[k]]@, sub@) && is_dir.ensures((&out@[k],), true) by {
                    if k < old_keep.len() {
                        assert(out@[k] == old_out[k]);
                    }
                }
                assert forall|j: int|
                    #![trigger self.read@[j]]
                    0 <= j < i + 1 implies (exists|k: int|
                        0 <= k < out@.len() && (#[trigger] out@[k])@ == join(self.read@[j]@, sub@))
                        || answered_false(is_dir, join(self.read@[j]@, sub@)) by {
                    if j < i {
                        if exists|k: int|
                            0 <= k < old_out.len() && (#[trigger] old_out[k])@ == join(self.read@[j]@, sub@) {
                            let k = choose|k: int|
                                0 <= k < old_out.len() && (#[trigger] old_out[k])@ == join(self.read@[j]@, sub@);
                            assert(out@[k] == old_out[k]);
                        }
                    } else {
                        assert(out@[old_out.len() as int]@ == join(self.read@[j]@, sub@));
                    }
                }
            } else {
                assert(is_dir.ensures((&d,), false));
                assert(answered_false(is_dir, join(self.read@[i as int]@, sub@)));
            }
            i += 1;
        }
        assert(keep.len() == out@.len());
        out
    }

    /// The first `<root>/<sub>/<rel>` for which `present` answers true, in
    /// search order.
    pub fn find<F: Fn(&String) -> bool>(&self, sub: &str, rel: &str, present: F) -> (r: Option<String>)
        requires
            forall|p: &String| present.requires((p,)),
        ensures
            match r {
                Some(p) => exists|i: int|
                    0 <= i < self.read@.len() && p@ == self.candidate(i, sub@, rel@)
                        && present.ensures((&p,), true) && forall|j: int|
                        #![trigger self.candidate(j, sub@, rel@)]
                        0 <= j < i ==> answered_false(present, self.candidate(j, sub@, rel@)),
                None => forall|j: int|
                    #![trigger self.candidate(j, sub@, rel@)]
                    0 <= j < self.read@.len() ==> answered_false(present, self.candidate(j, sub@, rel@)),
            },
    {
        let mut i: usize = 0;
        while i < self.read.len()
            invariant
                i <= self.read@.len(),
                forall|p: &String| present.requires((p,)),
                forall|j: int|
                    #![trigger self.candidate(j, sub@, rel@)]
                    0 <= j < i ==> answered_false(present, self.candidate(j, sub@, rel@)),
            decreases self.read.len() - i,
        {
            let d = join_path(self.read[i].as_str(), sub);
            let p = join_path(d.as_str(), rel);
            if present(&p) {
                assert(p@ == self.candidate(i as int, sub@, rel@));
                return Some(p);
            }
            assert(present.ensures((&p,), false));
            assert(p@ == self.candidate(i as int, sub@, rel@));
            assert(answered_false(present, self.candidate(i as int, sub@, rel@)));
            i += 1;
        }
        None
    }
}

/// What [`safe_component`] answers: the trimmed name, unless it is empty,
/// `.` or `..`, or holds a `/`, a `\` or a NUL.
pub open spec fn safe_component_of(name: Seq<char>) -> Option<Seq<char>> {
    let n = trim(name);
    if n.len() == 0 || n == seq!['.'] || n == seq!['.', '.'] || n.contains('/') || n.contains(
        '\\',
    ) || n.contains('\0') {
        None
    } else {
        Some(n)
    }
}

/// One safe path component: not empty, not `.`, not `..`, no separator,
/// no NUL. The rule that keeps a `.layaut` name or a widget directory
/// name from escaping the data directory.
pub fn safe_component(name: &str) -> (r: Option<String>)
    ensures
        match r {
            Some(s) => safe_component_of(name@) == Some(s@),
            None => safe_component_of(name@) is None,
        },
{
    let v = chars_of(name);
    let (a, b) = trim_in(&v, 0, v.len());
    let ghost n = v@.subrange(a as int, b as int);
    assert(v@.subrange(0, v@.len() as int) == v@);
    if a == b {
        return None;
    }
    if b - a == 1 && v[a] == '.' {
        assert(n =~= seq!['.']);
        return None;
    }
    if b - a == 2 && v[a] == '.' && v[a + 1] == '.' {
        assert(n =~= seq!['.', '.']);
        return None;
    }
    let mut i = a;
    while i < b
        invariant
            a <= i <= b <= v@.len(),
            n == v@.subrange(a as int, b as int),
            n == trim(name@),
            forall|j: int| a <= j < i ==> v@[j] != '/' && v@[j] != '\\' && v@[j] != '\0',
        decreases b - i,
    {
        let c = v[i];
        if c == '/' || c == '\\' || c == '\0' {
            assert(n[i - a] == c);
            return None;
        }
        i += 1;
    }
    assert(!n.contains('/') && !n.contains('\\') && !n.contains('\0')) by {
        assert forall|j: int| 0 <= j < n.len() implies n[j] != '/' && n[j] != '\\' && n[j]
            != '\0' by {
            assert(n[j] == v@[a + j]);
        }
    }
    assert(n != seq!['.']) by {
        if b - a == 1 {
            assert(n[0] != '.');
        } else {
            assert(n.len() != 1);
        }
    }
    assert(n != seq!['.', '.']) by {
        if b - a == 2 {
            assert(n[0] != '.' || n[1] != '.');
        } else {
            assert(n.len() != 2);
        }
    }
    Some(string_of(&v, a, b))
}

} // verus!
