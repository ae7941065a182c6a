//! A plain path value: the `/`- or `\`-separated segments of a path
//! string, with empty and `.` segments dropped.

use vstd::prelude::*;
use vstd::string::StringExecFns;
use crate::strutil::{chars_string, str_chars};

verus! {

/// The segment a finished token contributes: empty tokens and bare `.`
/// tokens are dropped.
pub open spec fn emit_seg(tok: Seq<char>) -> Seq<Seq<char>> {
    if tok.len() == 0 || tok == seq!['.'] {
        Seq::empty()
    } else {
        seq![tok]
    }
}

/// Left fold of the path splitter: `tok` is the segment accumulated so far.
pub open spec fn path_segs_from(s: Seq<char>, tok: Seq<char>) -> Seq<Seq<char>>
    decreases s.len(),
{
    if s.len() == 0 {
        emit_seg(tok)
    } else if s[0] == '/' || s[0] == '\\' {
        emit_seg(tok) + path_segs_from(s.drop_first(), Seq::empty())
    } else {
        path_segs_from(s.drop_first(), tok.push(s[0]))
    }
}

/// The segments of a path string.
pub open spec fn path_segments(s: Seq<char>) -> Seq<Seq<char>> {
    path_segs_from(s, Seq::empty())
}

/// Segments joined with `/`.
pub open spec fn join_slash(segs: Seq<Seq<char>>) -> Seq<char>
    decreases segs.len(),
{
    if segs.len() == 0 {
        Seq::empty()
    } else if segs.len() == 1 {
        segs[0]
    } else {
        segs[0] + seq!['/'] + join_slash(segs.drop_first())
    }
}

/// Index of the first segment equal to `target`, or -1.
pub open spec fn seg_index(segs: Seq<Seq<char>>, target: Seq<char>) -> int
    decreases segs.len(),
{
    if segs.len() == 0 {
        -1
    } else if segs[0] == target {
        0
    } else {
        let r = seg_index(segs.drop_first(), target);
        if r < 0 {
            -1
        } else {
            1 + r
        }
    }
}

proof fn lemma_seg_index_none(segs: Seq<Seq<char>>, target: Seq<char>)
    requires
        forall|k: int| 0 <= k < segs.len() ==> #[trigger] segs[k] != target,
    ensures
        seg_index(segs, target) < 0,
    decreases segs.len(),
{
    if segs.len() > 0 {
        assert(forall|k: int| 0 <= k < segs.drop_first().len() ==> #[trigger] segs.drop_first()[k]
            == segs[k + 1]);
        lemma_seg_index_none(segs.drop_first(), target);
    }
}

proof fn lemma_seg_index_first(segs: Seq<Seq<char>>, target: Seq<char>, i: int)
    requires
        0 <= i < segs.len(),
        segs[i] == target,
        forall|k: int| 0 <= k < i ==> #[trigger] segs[k] != target,
    ensures
        seg_index(segs, target) == i,
    decreases i,
{
    if i > 0 {
        assert(forall|k: int| 0 <= k < segs.drop_first().len() ==> #[trigger] segs.drop_first()[k]
            == segs[k + 1]);
        lemma_seg_index_first(segs.drop_first(), target, i - 1);
    }
}

/// A path as its list of segments.
#[derive(Debug)]
pub struct FilePath {
    data: Vec<String>,
}

impl FilePath {
    /// The segments of this path.
    pub closed spec fn segments(&self) -> Seq<Seq<char>> {
        self.data.deep_view()
    }

    /// Splits a path string on `/` and `\`, dropping empty and `.`
    /// segments.
    pub fn from(path: &str) -> (r: FilePath)
        ensures
            r.segments() == path_segments(path@),
    {
        let s = str_chars(path);
        let ghost sv = path@;
        let mut data: Vec<String> = Vec::new();
        let mut cur: Vec<char> = Vec::new();
        let mut i: usize = 0;
        proof {
            assert(sv.skip(0) =~= sv);
            assert(data.deep_view() =~= Seq::<Seq<char>>::empty());
            assert(Seq::<Seq<char>>::empty() + path_segments(sv) =~= path_segments(sv));
        }
        while i < s.len()
            invariant
                i <= s.len(),
                s@ == sv,
                path_segments(sv) == data.deep_view() + path_segs_from(sv.skip(i as int), cur@),
            decreases s.len() - i,
        {
            let ghost dv = data.deep_view();
            let ghost old_cur = cur@;
            let c = s[i];
            proof {
                assert(sv.skip(i as int)[0] == sv[i as int]);
                assert(sv.skip(i as int).drop_first() =~= sv.skip(i as int + 1));
            }
            if c == '/' || c == '\\' {
                let ghost emitted = emit_seg(old_cur);
                let ghost rest = path_segs_from(sv.skip(i as int + 1), Seq::<char>::empty());
                proof {
                    assert(path_segs_from(sv.skip(i as int), old_cur) == emitted + rest);
                    assert(dv + (emitted + rest) =~= (dv + emitted) + rest);
                }
                if cur.len() > 0 && !(cur.len() == 1 && cur[0] == '.') {
                    proof {
                        assert(old_cur != seq!['.']) by {
                            if old_cur.len() == 1 {
                                assert(old_cur[0] != '.');
                            }
                        }
                    }
                    let seg = chars_string(&cur);
                    data.push(seg);
                    proof {
                        assert(data.deep_view() =~= dv + emitted);
                    }
                } else {
                    proof {
                        if cur.len() == 1 && cur[0] == '.' {
                            assert(old_cur =~= seq!['.']);
                        }
                        assert(emitted =~= Seq::<Seq<char>>::empty());
                        assert(data.deep_view() =~= dv + emitted);
                    }
                }
                cur = Vec::new();
            } else {
                cur.push(c);
                proof {
                    assert(path_segs_from(sv.skip(i as int), old_cur) == path_segs_from(
                        sv.skip(i as int + 1),
                        cur@,
                    ));
                }
            }
            i += 1;
        }
        proof {
            assert(sv.skip(s@.len() as int) =~= Seq::<char>::empty());
        }
        let ghost dv = data.deep_view();
        let ghost emitted = emit_seg(cur@);
        if cur.len() > 0 && !(cur.len() == 1 && cur[0] == '.') {
            proof {
                assert(cur@ != seq!['.']) by {
                    if cur@.len() == 1 {
                        assert(cur@[0] != '.');
                    }
                }
            }
            let seg = chars_string(&cur);
            data.push(seg);
            proof {
                assert(data.deep_view() =~= dv + emitted);
            }
        } else {
            proof {
                if cur.len() == 1 && cur[0] == '.' {
                    assert(cur@ =~= seq!['.']);
                }
                assert(emitted =~= Seq::<Seq<char>>::empty());
                assert(data.deep_view() =~= dv + emitted);
            }
        }
        FilePath { data }
    }

    /// The path written back as a string: `./` then the segments joined
    /// with `/`.
    pub fn get_path(&self) -> (r: String)
        ensures
            r@ == seq!['.', '/'] + join_slash(self.segments()),
    {
        let ghost segs = self.segments();
        let mut joined = String::new();
        let mut i: usize = 0;
        proof {
            assert(joined@ =~= join_slash(segs.take(0)));
        }
        while i < self.data.len()
            invariant
                i <= self.data.len(),
                segs == self.segments(),
                segs.len() == self.data.len(),
                joined@ == join_slash(segs.take(i as int)),
            decreases self.data.len() - i,
        {
            proof {
                assert(segs[i as int] == self.data@[i as int]@);
            }
            if i > 0 {
                crate::strutil::push_char(&mut joined, '/');
            }
            joined.append(self.data[i].as_str());
            proof {
                lemma_join_slash_split(segs.take(i as int + 1));
                assert(segs.take(i as int + 1).take(i as int) =~= segs.take(i as int));
                assert(segs.take(i as int + 1).last() == segs[i as int]);
                assert(joined@ =~= join_slash(segs.take(i as int + 1)));
            }
            i += 1;
        }
        proof {
            assert(segs.take(self.data.len() as int) =~= segs);
        }
        let mut out = String::new();
        crate::strutil::push_char(&mut out, '.');
        crate::strutil::push_char(&mut out, '/');
        out.append(joined.as_str());
        proof {
            assert(out@ =~= seq!['.', '/'] + join_slash(segs));
        }
        out
    }

    /// The path written back as a string.
    pub fn as_string(&self) -> (r: String)
        ensures
            r@ == seq!['.', '/'] + join_slash(self.segments()),
    {
        self.get_path()
    }

    /// The last segment of the path.
    pub fn get_name(&self) -> (r: String)
        requires
            self.segments().len() > 0,
        ensures
            r@ == self.segments().last(),
    {
        proof {
            assert(self.segments()[self.data@.len() - 1] == self.data@[self.data@.len() - 1]@);
        }
        self.data[self.data.len() - 1].clone()
    }

    /// Appends another path's segments to this one.
    pub fn append(&mut self, path: &FilePath)
        ensures
            final(self).segments() == old(self).segments() + path.segments(),
    {
        let ghost base = self.segments();
        let ghost add = path.segments();
        let mut i: usize = 0;
        proof {
            assert(base + add.take(0) =~= base);
        }
        while i < path.data.len()
            invariant
                i <= path.data.len(),
                add == path.segments(),
                add.len() == path.data.len(),
                self.segments() == base + add.take(i as int),
            decreases path.data.len() - i,
        {
            let ghost pre = self.segments();
            proof {
                assert(add[i as int] == path.data@[i as int]@);
            }
            self.data.push(path.data[i].clone());
            proof {
                assert(self.segments() =~= pre.push(add[i as int]));
                assert(base + add.take(i as int + 1) =~= (base + add.take(i as int)).push(
                    add[i as int],
                ));
            }
            i += 1;
        }
        proof {
            assert(add.take(path.data.len() as int) =~= add);
        }
    }

    /// Drops the last segment; an empty path stays empty.
    pub fn pop(&mut self)
        ensures
            old(self).segments().len() == 0 ==> final(self).segments() == old(self).segments(),
            old(self).segments().len() > 0 ==> final(self).segments() == old(self).segments().take(
                old(self).segments().len() - 1,
            ),
    {
        let ghost pre = self.segments();
        self.data.pop();
        proof {
            if pre.len() > 0 {
                assert(self.segments() =~= pre.take(pre.len() - 1));
            } else {
                assert(self.segments() =~= pre);
            }
        }
    }

    /// Cuts away everything up to and including the first segment equal to
    /// the last segment of `paths`; when `paths` is empty or no segment
    /// matches, the path is returned unchanged.
    pub fn cut(self, paths: &FilePath) -> (r: FilePath)
        ensures
            ({
                let segs = self.segments();
                if paths.segments().len() == 0 {
                    r.segments() == segs
                } else {
                    let t = paths.segments().last();
                    let i = seg_index(segs, t);
                    if i < 0 {
                        r.segments() == segs
                    } else {
                        r.segments() == segs.skip(i + 1)
                    }
                }
            }),
    {
        let ghost segs = self.segments();
        if paths.data.len() == 0 {
            return self;
        }
        proof {
            assert(paths.segments()[paths.data@.len() - 1] == paths.data@[paths.data@.len() - 1]@);
        }
        let target = &paths.data[paths.data.len() - 1];
        let ghost t = paths.segments().last();
        proof {
            assert(paths.segments().len() == paths.data@.len());
        }
        let mut i: usize = 0;
        while i < self.data.len()
            invariant
                i <= self.data.len(),
                segs == self.segments(),
                segs.len() == self.data.len(),
                t == target@,
                paths.segments().len() > 0,
                t == paths.segments().last(),
                forall|k: int| 0 <= k < i ==> #[trigger] segs[k] != t,
            decreases self.data.len() - i,
        {
            proof {
                assert(segs[i as int] == self.data@[i as int]@);
            }
            if self.data[i].eq(target) {
                proof {
                    lemma_seg_index_first(segs, t, i as int);
                }
                let mut out: Vec<String> = Vec::new();
                let mut j: usize = i + 1;
                while j < self.data.len()
                    invariant
                        i + 1 <= j <= self.data.len(),
                        segs == self.segments(),
                        segs.len() == self.data.len(),
                        out.deep_view() == segs.subrange(i as int + 1, j as int),
                    decreases self.data.len() - j,
                {
                    let ghost pre = out.deep_view();
                    proof {
                        assert(segs[j as int] == self.data@[j as int]@);
                    }
                    out.push(self.data[j].clone());
                    proof {
                        assert(out.deep_view() =~= pre.push(segs[j as int]));
                        assert(segs.subrange(i as int + 1, j as int + 1) =~= segs.subrange(
                            i as int + 1,
                            j as int,
                        ).push(segs[j as int]));
                    }
                    j += 1;
                }
                proof {
                    assert(segs.subrange(i as int + 1, segs.len() as int) =~= segs.skip(
                        i as int + 1,
                    ));
                }
                return FilePath { data: out };
            }
            i += 1;
        }
        proof {
            lemma_seg_index_none(segs, t);
        }
        self
    }
}

/// Splitting the join at the last segment.
proof fn lemma_join_slash_split(segs: Seq<Seq<char>>)
    requires
        segs.len() > 0,
    ensures
        join_slash(segs) == join_slash(segs.take(segs.len() - 1)) + (if segs.len() > 1 {
            seq!['/']
        } else {
            Seq::<char>::empty()
        }) + segs.last(),
    decreases segs.len(),
{
    if segs.len() == 1 {
        assert(segs.take(0) =~= Seq::<Seq<char>>::empty());
        assert(Seq::<char>::empty() + Seq::<char>::empty() + segs[0] =~= segs[0]);
    } else {
        lemma_join_slash_split(segs.drop_first());
        assert(segs.drop_first().take(segs.drop_first().len() - 1) =~= segs.take(
            segs.len() - 1,
        ).drop_first());
        assert(segs.drop_first().last() == segs.last());
        assert(segs.take(segs.len() - 1)[0] == segs[0]);
        assert(segs.take(segs.len() - 1).len() == segs.len() - 1);
        if segs.len() == 2 {
            assert(join_slash(segs.take(segs.len() - 1)) == segs[0]);
            assert(segs[0] + seq!['/'] + segs.drop_first()[0] =~= segs[0] + seq!['/'] + (
            Seq::<char>::empty() + Seq::<char>::empty() + segs.last()));
            assert(join_slash(segs) =~= join_slash(segs.take(segs.len() - 1)) + seq!['/']
                + segs.last());
        } else {
            assert(join_slash(segs) == segs[0] + seq!['/'] + join_slash(segs.drop_first()));
            assert(join_slash(segs.take(segs.len() - 1)) == segs.take(segs.len() - 1)[0] + seq![
                '/',
            ] + join_slash(segs.take(segs.len() - 1).drop_first()));
            assert(join_slash(segs) =~= join_slash(segs.take(segs.len() - 1)) + seq!['/']
                + segs.last());
        }
    }
}

} // verus!
