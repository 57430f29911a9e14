//! The path relativizer: computes the forward-slash relative path that
//! navigates from one file's location to another within the same tree.
//!
//! A path is modelled as its sequence of segments, the text split on every
//! `/`. Segment comparison is exact; no normalization of `.` or `..` inside
//! inputs is performed (inputs are assumed already normalized).

use vstd::prelude::*;
use vstd::string::*;

use crate::text::str_eq;

verus! {

/// The views of a vector of strings.
pub open spec fn views_of(v: Seq<String>) -> Seq<Seq<char>> {
    v.map_values(|t: String| t@)
}

/// The segments of a path: the text split on every `/`. A path always has at
/// least one segment; an empty path has the single empty segment.
pub open spec fn split_segs(s: Seq<char>) -> Seq<Seq<char>>
    decreases s.len(),
{
    if s.len() == 0 {
        seq![Seq::<char>::empty()]
    } else {
        let rest = split_segs(s.drop_last());
        if s.last() == '/' {
            rest.push(Seq::<char>::empty())
        } else {
            rest.update(rest.len() - 1, rest.last().push(s.last()))
        }
    }
}

/// Joining segments with `/` separators.
pub open spec fn join_segs(segs: Seq<Seq<char>>) -> Seq<char>
    decreases segs.len(),
{
    if segs.len() == 0 {
        Seq::<char>::empty()
    } else if segs.len() == 1 {
        segs[0]
    } else {
        join_segs(segs.drop_last()) + seq!['/'] + segs.last()
    }
}

/// The length of the longest common prefix of two segment sequences.
pub open spec fn common_prefix_len(a: Seq<Seq<char>>, b: Seq<Seq<char>>) -> nat
    decreases a.len(),
{
    if a.len() == 0 || b.len() == 0 || a[0] != b[0] {
        0
    } else {
        1 + common_prefix_len(a.drop_first(), b.drop_first())
    }
}

/// `n` upward steps: `../` repeated `n` times.
pub open spec fn up_steps(n: nat) -> Seq<char>
    decreases n,
{
    if n == 0 {
        Seq::<char>::empty()
    } else {
        up_steps((n - 1) as nat) + seq!['.', '.', '/']
    }
}

/// The relative path from the location of file `from` to file `to`.
///
/// Identical paths give the empty string. Otherwise the segments of `from`
/// minus its final segment (the file name) are compared with the segments of
/// `to`: one `../` is emitted for each segment of `from`'s directory beyond
/// the common prefix, followed by the remaining segments of `to` joined with
/// `/`. When no ascent is needed and at least one segment remains, the result
/// is prefixed with `./` instead.
pub open spec fn rel_path(from: Seq<char>, to: Seq<char>) -> Seq<char> {
    if from == to {
        Seq::<char>::empty()
    } else {
        let fs = split_segs(from).drop_last();
        let ts = split_segs(to);
        let c = common_prefix_len(fs, ts);
        let down = ts.skip(c as int);
        if fs.len() == c && down.len() > 0 {
            seq!['.', '/'] + join_segs(down)
        } else {
            up_steps((fs.len() - c) as nat) + join_segs(down)
        }
    }
}

/// A split always yields at least one segment.
pub proof fn lemma_split_segs_nonempty(s: Seq<char>)
    ensures
        split_segs(s).len() >= 1,
    decreases s.len(),
{
    if s.len() > 0 {
        lemma_split_segs_nonempty(s.drop_last());
    }
}

/// The common prefix is no longer than either sequence.
pub proof fn lemma_common_prefix_le(a: Seq<Seq<char>>, b: Seq<Seq<char>>)
    ensures
        common_prefix_len(a, b) <= a.len(),
        common_prefix_len(a, b) <= b.len(),
    decreases a.len(),
{
    if a.len() != 0 && b.len() != 0 && a[0] == b[0] {
        lemma_common_prefix_le(a.drop_first(), b.drop_first());
    }
}

/// Characterization of the common prefix length: if the first `n` pairs of
/// segments agree and position `n` is a boundary or a disagreement, the
/// common prefix length is exactly `n`.
pub proof fn lemma_common_prefix_char(a: Seq<Seq<char>>, b: Seq<Seq<char>>, n: int)
    requires
        0 <= n <= a.len(),
        n <= b.len(),
        forall|j: int| 0 <= j < n ==> a[j] == b[j],
        n == a.len() || n == b.len() || a[n] != b[n],
    ensures
        common_prefix_len(a, b) == n,
    decreases n,
{
    if n == 0 {
        if a.len() != 0 && b.len() != 0 {
            assert(a[0] != b[0]);
        }
    } else {
        assert(a[0] == b[0]);
        let a2 = a.drop_first();
        let b2 = b.drop_first();
        assert(forall|j: int| 0 <= j < n - 1 ==> a2[j] == b2[j]);
        lemma_common_prefix_char(a2, b2, n - 1);
    }
}

/// Splitting distributes over joining two paths with a `/`.
pub proof fn lemma_split_concat(a: Seq<char>, b: Seq<char>)
    ensures
        split_segs(a + seq!['/'] + b) == split_segs(a) + split_segs(b),
    decreases b.len(),
{
    let s = a + seq!['/'] + b;
    if b.len() == 0 {
        assert(s.len() == a.len() + 1);
        assert(s.last() == '/');
        assert(s.drop_last() =~= a);
        assert(split_segs(a).push(Seq::<char>::empty()) =~~= split_segs(a) + split_segs(b));
    } else {
        let bd = b.drop_last();
        lemma_split_concat(a, bd);
        lemma_split_segs_nonempty(bd);
        assert(s.last() == b.last());
        assert(s.drop_last() =~= a + seq!['/'] + bd);
        let x = split_segs(a) + split_segs(bd);
        assert(split_segs(s.drop_last()) == x);
        if b.last() == '/' {
            assert(x.push(Seq::<char>::empty()) =~~= split_segs(a) + split_segs(bd).push(
                Seq::<char>::empty(),
            ));
        } else {
            let y = split_segs(bd);
            assert(x.last() == y.last());
            assert(x.update(x.len() - 1, x.last().push(b.last())) =~~= split_segs(a) + y.update(
                y.len() - 1,
                y.last().push(b.last()),
            ));
        }
    }
}

/// Joining the segments of a path gives the path back.
pub proof fn lemma_join_split(s: Seq<char>)
    ensures
        join_segs(split_segs(s)) == s,
    decreases s.len(),
{
    if s.len() == 0 {
        assert(join_segs(split_segs(s)) =~= s);
    } else {
        let sd = s.drop_last();
        let c = s.last();
        lemma_join_split(sd);
        lemma_split_segs_nonempty(sd);
        let x = split_segs(sd);
        if c == '/' {
            assert(x.push(Seq::<char>::empty()).drop_last() =~~= x);
            assert(join_segs(split_segs(s)) == sd + seq!['/'] + Seq::<char>::empty());
            assert(sd + seq!['/'] + Seq::<char>::empty() =~= s);
        } else {
            let u = x.update(x.len() - 1, x.last().push(c));
            if x.len() == 1 {
                assert(u.len() == 1);
                assert(join_segs(u) == u[0]);
                assert(u[0] == x[0].push(c));
                assert(join_segs(x) == x[0]);
                assert(x[0].push(c) =~= s);
            } else {
                assert(u.drop_last() =~~= x.drop_last());
                assert(u.last() == x.last().push(c));
                assert(join_segs(u) == join_segs(x.drop_last()) + seq!['/'] + x.last().push(c));
                assert(join_segs(x.drop_last()) + seq!['/'] + x.last().push(c) =~= (join_segs(
                    x.drop_last(),
                ) + seq!['/'] + x.last()).push(c));
                assert(join_segs(split_segs(s)) =~= s);
            }
        }
    }
}

/// Resolving a root-relative path against the tree root and relativizing the
/// result back to the root returns the path unchanged: the segments of
/// `root/path` below the root's own segments join back to exactly `path`.
/// The reference table may therefore store record paths verbatim.
pub proof fn lemma_root_relative_resolution(root: Seq<char>, path: Seq<char>)
    ensures
        common_prefix_len(split_segs(root), split_segs(root + seq!['/'] + path)) == split_segs(
            root,
        ).len(),
        join_segs(
            split_segs(root + seq!['/'] + path).skip(split_segs(root).len() as int),
        ) == path,
{
    lemma_split_concat(root, path);
    lemma_join_split(path);
    lemma_split_segs_nonempty(root);
    lemma_split_segs_nonempty(path);
    let fs = split_segs(root);
    let ts = fs + split_segs(path);
    lemma_common_prefix_char(fs, ts, fs.len() as int);
    assert(ts.skip(fs.len() as int) =~~= split_segs(path));
}

/// Splits a path into its segments.
pub fn split_path(s: &str) -> (segs: Vec<String>)
    ensures
        views_of(segs@) == split_segs(s@),
{
    let len = s.unicode_len();
    let mut segs: Vec<String> = Vec::new();
    let mut start: usize = 0;
    let mut i: usize = 0;
    proof {
        assert(s@.take(0) =~= Seq::<char>::empty());
        assert(s@.subrange(0, 0) =~= Seq::<char>::empty());
        assert(views_of(segs@).push(s@.subrange(0, 0)) =~~= seq![Seq::<char>::empty()]);
    }
    while i < len
        invariant
            len == s@.len(),
            start <= i <= len,
            split_segs(s@.take(i as int)) == views_of(segs@).push(
                s@.subrange(start as int, i as int),
            ),
        decreases len - i,
    {
        let c = s.get_char(i);
        proof {
            assert(s@.take(i + 1).drop_last() =~= s@.take(i as int));
            assert(s@.take(i + 1).last() == s@[i as int]);
        }
        if c == '/' {
            let seg = s.substring_char(start, i).to_owned();
            proof {
                assert(views_of(segs@.push(seg)) =~~= views_of(segs@).push(seg@));
                assert(split_segs(s@.take(i + 1)) =~~= views_of(segs@.push(seg)).push(
                    s@.subrange(i + 1, i + 1),
                ));
            }
            segs.push(seg);
            start = i + 1;
        } else {
            proof {
                let prev = views_of(segs@).push(s@.subrange(start as int, i as int));
                assert(prev.last() == s@.subrange(start as int, i as int));
                assert(s@.subrange(start as int, i as int).push(s@[i as int]) =~= s@.subrange(
                    start as int,
                    i + 1,
                ));
                assert(prev.update(prev.len() - 1, prev.last().push(s@[i as int]))
                    =~~= views_of(segs@).push(s@.subrange(start as int, i + 1)));
            }
        }
        i = i + 1;
    }
    proof {
        assert(s@.take(len as int) =~= s@);
    }
    let last = s.substring_char(start, len).to_owned();
    proof {
        assert(views_of(segs@.push(last)) =~~= views_of(segs@).push(last@));
    }
    segs.push(last);
    segs
}

/// The length of the common prefix of two segment vectors.
fn common_prefix(fs: &Vec<String>, ts: &Vec<String>) -> (c: usize)
    ensures
        c == common_prefix_len(views_of(fs@), views_of(ts@)),
{
    let mut c: usize = 0;
    while c < fs.len() && c < ts.len() && str_eq(fs[c].as_str(), ts[c].as_str())
        invariant
            c <= fs.len(),
            c <= ts.len(),
            forall|j: int| 0 <= j < c ==> views_of(fs@)[j] == views_of(ts@)[j],
        decreases fs.len() - c,
    {
        c = c + 1;
    }
    proof {
        lemma_common_prefix_char(views_of(fs@), views_of(ts@), c as int);
    }
    c
}

/// Computes the relative path from the location of `src_file` to
/// `target_file`: the empty string for identical paths, a `./` prefix when
/// the target is reached without ascending, and one `../` per directory
/// ascended otherwise.
pub fn calculate_relative_path(src_file: &str, target_file: &str) -> (r: String)
    ensures
        r@ == rel_path(src_file@, target_file@),
{
    if str_eq(src_file, target_file) {
        return String::new();
    }
    let mut fs = split_path(src_file);
    let ts = split_path(target_file);
    proof {
        lemma_split_segs_nonempty(src_file@);
        assert(views_of(fs@).len() == fs@.len());
    }
    fs.pop();
    proof {
        assert(views_of(fs@) =~~= split_segs(src_file@).drop_last());
        lemma_common_prefix_le(views_of(fs@), views_of(ts@));
    }
    let c = common_prefix(&fs, &ts);
    let ghost fsv = views_of(fs@);
    let ghost tsv = views_of(ts@);
    let ghost down = tsv.skip(c as int);
    let mut r = String::new();
    if c == fs.len() {
        if c < ts.len() {
            r.append("./");
            proof {
                reveal_strlit("./");
                assert(r@ =~= seq!['.', '/']);
            }
        }
    } else {
        let ups = fs.len() - c;
        let mut k: usize = 0;
        while k < ups
            invariant
                k <= ups,
                r@ == up_steps(k as nat),
            decreases ups - k,
        {
            r.append("../");
            proof {
                reveal_strlit("../");
                assert(r@ =~= up_steps((k + 1) as nat));
            }
            k = k + 1;
        }
    }
    let ghost prefix = r@;
    let mut k: usize = c;
    while k < ts.len()
        invariant
            c <= k <= ts.len(),
            c <= fs@.len(),
            tsv == views_of(ts@),
            down == tsv.skip(c as int),
            r@ == prefix + join_segs(down.take(k - c)),
        decreases ts.len() - k,
    {
        if k > c {
            r.append("/");
        }
        r.append(ts[k].as_str());
        proof {
            reveal_strlit("/");
            let m = k - c;
            assert(down.take(m + 1).drop_last() =~~= down.take(m));
            assert(down.take(m + 1).last() == tsv[k as int]);
            if m == 0 {
                assert(join_segs(down.take(1)) == down.take(1)[0]);
                assert(down.take(1)[0] == tsv[k as int]);
                assert(r@ =~= prefix + join_segs(down.take(m + 1)));
            } else {
                assert(join_segs(down.take(m + 1)) == join_segs(down.take(m)) + seq!['/']
                    + tsv[k as int]);
                assert(r@ =~= prefix + join_segs(down.take(m + 1)));
            }
        }
        k = k + 1;
    }
    proof {
        assert(down.take(ts@.len() - c) =~~= down);
        assert(r@ == prefix + join_segs(down));
        if c == fsv.len() && down.len() > 0 {
            assert(prefix =~= seq!['.', '/']);
        } else if c == fsv.len() {
            assert(r@ =~= Seq::<char>::empty());
            assert(up_steps(0) + join_segs(down) =~= Seq::<char>::empty());
        } else {
            assert(prefix == up_steps((fsv.len() - c) as nat));
        }
        assert(r@ == rel_path(src_file@, target_file@));
    }
    r
}

} // verus!
