//! Paths held as text, read the way `std::path` reads Unix paths.
//!
//! A path's components are its `/`-separated segments, without empty segments and without
//! `.` segments, together with whether the path starts at the root.

use vstd::prelude::*;

use crate::text::{chars_of, chars_are, push_chars, string_from_chars};

verus! {

/// Segments finished so far and the segment in progress, after the first `n` characters.
pub open spec fn scan_segments(p: Seq<char>, n: nat) -> (Seq<Seq<char>>, Seq<char>)
    decreases n,
{
    if n == 0 {
        (seq![], seq![])
    } else {
        let (done, cur) = scan_segments(p, (n - 1) as nat);
        if p[n - 1] == '/' {
            (keep_segment(done, cur), seq![])
        } else {
            (done, cur.push(p[n - 1]))
        }
    }
}

/// A finished segment counts unless it is empty or `.`.
pub open spec fn keep_segment(done: Seq<Seq<char>>, s: Seq<char>) -> Seq<Seq<char>> {
    if s.len() == 0 || s =~= seq!['.'] {
        done
    } else {
        done.push(s)
    }
}

/// The named components of a path, in order.
pub open spec fn segments(p: Seq<char>) -> Seq<Seq<char>> {
    let (done, cur) = scan_segments(p, p.len());
    keep_segment(done, cur)
}

/// The path starts at the root.
pub open spec fn is_absolute(p: Seq<char>) -> bool {
    p.len() > 0 && p[0] == '/'
}

/// `Path::file_name`: the last component, unless there is none or it is `..`.
pub open spec fn file_name(p: Seq<char>) -> Option<Seq<char>> {
    let s = segments(p);
    if s.len() == 0 || s.last() =~= seq!['.', '.'] {
        None
    } else {
        Some(s.last())
    }
}

/// Position of the last `.` among the first `n` characters, or -1.
pub open spec fn last_dot(n: Seq<char>, len: nat) -> int
    decreases len,
{
    if len == 0 {
        -1
    } else if n[len - 1] == '.' {
        len - 1
    } else {
        last_dot(n, (len - 1) as nat)
    }
}

/// `Path::extension`: what follows the last `.` of the file name, when something comes
/// before that `.`.
pub open spec fn extension(p: Seq<char>) -> Option<Seq<char>> {
    match file_name(p) {
        Some(n) => {
            let d = last_dot(n, n.len());
            if d <= 0 {
                None
            } else {
                Some(n.subrange(d + 1, n.len() as int))
            }
        },
        None => None,
    }
}

/// `path.parent() == Some(root)`: the path is the root with one more component.
pub open spec fn is_child_of(path: Seq<char>, root: Seq<char>) -> bool {
    &&& is_absolute(path) == is_absolute(root)
    &&& segments(path).len() == segments(root).len() + 1
    &&& segments(path).take(segments(root).len() as int) == segments(root)
}

/// The components joined by `/`.
pub open spec fn join_segments(s: Seq<Seq<char>>) -> Seq<char>
    decreases s.len(),
{
    if s.len() == 0 {
        seq![]
    } else if s.len() == 1 {
        s[0]
    } else {
        join_segments(s.drop_last()) + seq!['/'] + s.last()
    }
}

/// `Path::strip_prefix`: the components after the base's, when the base's components begin
/// the path's.
pub open spec fn strip_prefix(path: Seq<char>, base: Seq<char>) -> Option<Seq<char>> {
    if is_absolute(path) == is_absolute(base) && segments(base).len() <= segments(path).len()
        && segments(path).take(segments(base).len() as int) == segments(base) {
        Some(join_segments(segments(path).skip(segments(base).len() as int)))
    } else {
        None
    }
}

/// `Path::join` with a relative name: the name after a separator, unless the base is empty
/// or already ends with one.
pub open spec fn join(base: Seq<char>, name: Seq<char>) -> Seq<char> {
    if base.len() == 0 {
        name
    } else if base.last() == '/' {
        base + name
    } else {
        base + seq!['/'] + name
    }
}

fn keep_segment_exec(done: &mut Vec<Vec<char>>, cur: Vec<char>)
    ensures
        final(done)@.map_values(|v: Vec<char>| v@) == keep_segment(old(done)@.map_values(|v: Vec<char>| v@), cur@),
{
    let dot = chars_are(cur.as_slice(), &['.']);
    if cur.len() > 0 && !dot {
        let ghost before = done@;
        done.push(cur);
        proof {
            assert(done@.map_values(|v: Vec<char>| v@) =~= before.map_values(|v: Vec<char>| v@).push(cur@));
        }
    }
}

/// The named components of a path.
pub fn path_segments(p: &[char]) -> (r: Vec<Vec<char>>)
    ensures
        r@.map_values(|v: Vec<char>| v@) == segments(p@),
{
    let mut done: Vec<Vec<char>> = Vec::new();
    let mut cur: Vec<char> = Vec::new();
    let mut i: usize = 0;
    while i < p.len()
        invariant
            i <= p@.len(),
            done@.map_values(|v: Vec<char>| v@) == scan_segments(p@, i as nat).0,
            cur@ == scan_segments(p@, i as nat).1,
        decreases p@.len() - i,
    {
        if p[i] == '/' {
            let finished = cur;
            keep_segment_exec(&mut done, finished);
            cur = Vec::new();
        } else {
            cur.push(p[i]);
        }
        i += 1;
        proof {
            assert(cur@ =~= scan_segments(p@, i as nat).1);
        }
    }
    keep_segment_exec(&mut done, cur);
    done
}

/// `Path::file_name` of a path held as text.
pub fn file_name_of(p: &str) -> (r: Option<Vec<char>>)
    ensures
        r matches Some(v) ==> file_name(p@) == Some(v@),
        r is None ==> file_name(p@) is None,
{
    let chars = chars_of(p);
    let mut segs = path_segments(chars.as_slice());
    if segs.len() == 0 {
        return None;
    }
    let ghost sv = segs@.map_values(|v: Vec<char>| v@);
    proof {
        assert(sv.last() == segs@.last()@);
    }
    let last = segs.pop().unwrap();
    if chars_are(last.as_slice(), &['.', '.']) {
        None
    } else {
        Some(last)
    }
}

/// `Path::extension` of a path held as text.
pub fn extension_of(p: &str) -> (r: Option<String>)
    ensures
        r matches Some(s) ==> extension(p@) == Some(s@),
        r is None ==> extension(p@) is None,
{
    match file_name_of(p) {
        None => None,
        Some(n) => {
            let mut k: usize = n.len();
            while k > 0 && n[k - 1] != '.'
                invariant
                    k <= n@.len(),
                    last_dot(n@, n@.len()) == last_dot(n@, k as nat),
                decreases k,
            {
                k -= 1;
            }
            // `k - 1` is the last dot, if `k > 0`.
            if k <= 1 {
                None
            } else {
                let mut out: Vec<char> = Vec::new();
                crate::text::push_range(&mut out, n.as_slice(), k, n.len());
                proof {
                    assert(out@ =~= n@.subrange(k as int, n@.len() as int));
                }
                Some(string_from_chars(out.as_slice()))
            }
        },
    }
}

/// Whether the path is the root with one more component.
pub fn child_of(path: &str, root: &str) -> (b: bool)
    ensures
        b == is_child_of(path@, root@),
{
    let p = chars_of(path);
    let r = chars_of(root);
    let pa = p.len() > 0 && p[0] == '/';
    let ra = r.len() > 0 && r[0] == '/';
    let ps = path_segments(p.as_slice());
    let rs = path_segments(r.as_slice());
    if pa != ra || ps.len() == 0 || ps.len() - 1 != rs.len() {
        return false;
    }
    let prefix = segments_prefix(&ps, &rs);
    proof {
        assert(ps@.map_values(|v: Vec<char>| v@).len() == ps@.len());
    }
    prefix
}

/// Whether the components `b` begin the components `a`.
fn segments_prefix(a: &Vec<Vec<char>>, b: &Vec<Vec<char>>) -> (r: bool)
    requires
        b@.len() <= a@.len(),
    ensures
        r == (a@.map_values(|v: Vec<char>| v@).take(b@.len() as int) == b@.map_values(|v: Vec<char>| v@)),
{
    let ghost av = a@.map_values(|v: Vec<char>| v@);
    let ghost bv = b@.map_values(|v: Vec<char>| v@);
    let mut i: usize = 0;
    while i < b.len()
        invariant
            i <= b@.len() <= a@.len(),
            av == a@.map_values(|v: Vec<char>| v@),
            bv == b@.map_values(|v: Vec<char>| v@),
            forall|k: int| 0 <= k < i ==> av[k] == bv[k],
        decreases b@.len() - i,
    {
        if !chars_are(a[i].as_slice(), b[i].as_slice()) {
            proof {
                assert(av.take(b@.len() as int)[i as int] != bv[i as int]);
            }
            return false;
        }
        i += 1;
    }
    proof {
        assert(av.take(b@.len() as int) =~= bv);
    }
    true
}

/// The components joined by `/`.
fn join_exec(segs: &Vec<Vec<char>>, from: usize) -> (r: Vec<char>)
    requires
        from <= segs@.len(),
    ensures
        r@ == join_segments(segs@.map_values(|v: Vec<char>| v@).skip(from as int)),
{
    let ghost sv = segs@.map_values(|v: Vec<char>| v@);
    let mut out: Vec<char> = Vec::new();
    let mut i: usize = from;
    while i < segs.len()
        invariant
            from <= i <= segs@.len(),
            sv == segs@.map_values(|v: Vec<char>| v@),
            out@ == join_segments(sv.skip(from as int).take(i - from)),
        decreases segs@.len() - i,
    {
        let ghost prev = sv.skip(from as int).take(i - from);
        let ghost next = sv.skip(from as int).take(i + 1 - from);
        proof {
            assert(next.drop_last() =~= prev);
            assert(next.last() == segs@[i as int]@);
        }
        if i > from {
            out.push('/');
        }
        push_chars(&mut out, segs[i].as_slice());
        proof {
            if i == from {
                assert(next.len() == 1);
                assert(out@ =~= next[0]);
            } else {
                assert(out@ =~= join_segments(prev) + seq!['/'] + next.last());
            }
        }
        i += 1;
    }
    proof {
        assert(sv.skip(from as int).take(segs@.len() - from) =~= sv.skip(from as int));
    }
    out
}

/// `Path::strip_prefix` of paths held as text.
pub fn strip_prefix_of(path: &str, base: &str) -> (r: Option<String>)
    ensures
        r matches Some(s) ==> strip_prefix(path@, base@) == Some(s@),
        r is None ==> strip_prefix(path@, base@) is None,
{
    let p = chars_of(path);
    let b = chars_of(base);
    let pa = p.len() > 0 && p[0] == '/';
    let ba = b.len() > 0 && b[0] == '/';
    let ps = path_segments(p.as_slice());
    let bs = path_segments(b.as_slice());
    if pa != ba || bs.len() > ps.len() {
        return None;
    }
    if !segments_prefix(&ps, &bs) {
        return None;
    }
    let rest = join_exec(&ps, bs.len());
    Some(string_from_chars(rest.as_slice()))
}

/// `Path::join` of paths held as text, with a relative name.
pub fn join_path(base: &str, name: &str) -> (r: String)
    ensures
        r@ == join(base@, name@),
{
    let mut v = chars_of(base);
    let n = chars_of(name);
    if v.len() > 0 && v[v.len() - 1] != '/' {
        v.push('/');
    }
    push_chars(&mut v, n.as_slice());
    proof {
        assert(v@ =~= join(base@, name@));
    }
    string_from_chars(v.as_slice())
}

// ---------------------------------------------------------------------------
// Laws.

/// A component as `segments` gives them: not empty, not `.`, without a separator.
pub open spec fn good_segment(s: Seq<char>) -> bool {
    s.len() > 0 && !(s =~= seq!['.']) && forall|i: int| 0 <= i < s.len() ==> s[i] != '/'
}

/// Reading the first `n` characters does not look past them.
proof fn lemma_scan_prefix(x: Seq<char>, y: Seq<char>, n: nat)
    requires
        n <= x.len(),
    ensures
        scan_segments(x + y, n) == scan_segments(x, n),
    decreases n,
{
    if n > 0 {
        lemma_scan_prefix(x, y, (n - 1) as nat);
        assert((x + y)[n - 1] == x[n - 1]);
    }
}

/// After a text whose last segment is closed, the scan of what follows goes on alone.
proof fn lemma_scan_concat(x: Seq<char>, y: Seq<char>, n: nat)
    requires
        n <= y.len(),
        scan_segments(x, x.len()).1.len() == 0,
    ensures
        scan_segments(x + y, x.len() + n) == (scan_segments(x, x.len()).0 + scan_segments(y, n).0, scan_segments(y, n).1),
    decreases n,
{
    let d = scan_segments(x, x.len()).0;
    if n == 0 {
        lemma_scan_prefix(x, y, x.len());
        assert(d + Seq::<Seq<char>>::empty() =~= d);
        assert(scan_segments(x, x.len()).1 =~= Seq::<char>::empty());
    } else {
        lemma_scan_concat(x, y, (n - 1) as nat);
        assert((x + y)[x.len() + n - 1] == y[n - 1]);
        let (d2, c2) = scan_segments(y, (n - 1) as nat);
        if y[n - 1] == '/' {
            assert(keep_segment(d + d2, c2) =~= d + keep_segment(d2, c2));
        }
    }
}

/// The components of a text whose last segment is closed, followed by another, are those
/// of the one and then those of the other.
proof fn lemma_segments_concat(x: Seq<char>, y: Seq<char>)
    requires
        scan_segments(x, x.len()).1.len() == 0,
    ensures
        segments(x + y) == segments(x) + segments(y),
{
    lemma_scan_concat(x, y, y.len());
    let d = scan_segments(x, x.len()).0;
    let (d2, c2) = scan_segments(y, y.len());
    assert(keep_segment(d + d2, c2) =~= d + keep_segment(d2, c2));
    assert(scan_segments(x, x.len()).1 =~= Seq::<char>::empty());
    assert((x + y).len() == x.len() + y.len());
}

/// A separator closes the last segment, and adds no component.
proof fn lemma_segments_slash(x: Seq<char>)
    ensures
        scan_segments(x + seq!['/'], x.len() + 1).1.len() == 0,
        segments(x + seq!['/']) == segments(x),
{
    lemma_scan_prefix(x, seq!['/'], x.len());
    assert((x + seq!['/'])[x.len() as int] == '/');
    assert((x + seq!['/']).len() == x.len() + 1);
}

/// A text without separators is read as one segment in progress.
proof fn lemma_scan_plain(a: Seq<char>, n: nat)
    requires
        n <= a.len(),
        forall|i: int| 0 <= i < a.len() ==> a[i] != '/',
    ensures
        scan_segments(a, n) == (Seq::<Seq<char>>::empty(), a.take(n as int)),
    decreases n,
{
    if n > 0 {
        lemma_scan_plain(a, (n - 1) as nat);
        assert(a.take(n - 1).push(a[n - 1]) =~= a.take(n as int));
    } else {
        assert(a.take(0) =~= Seq::<char>::empty());
    }
}

/// Every component that `segments` gives is a good one.
proof fn lemma_scan_good(p: Seq<char>, n: nat)
    requires
        n <= p.len(),
    ensures
        forall|i: int| 0 <= i < scan_segments(p, n).0.len() ==> good_segment(#[trigger] scan_segments(p, n).0[i]),
        forall|i: int| 0 <= i < scan_segments(p, n).1.len() ==> scan_segments(p, n).1[i] != '/',
    decreases n,
{
    if n > 0 {
        lemma_scan_good(p, (n - 1) as nat);
        let (d, c) = scan_segments(p, (n - 1) as nat);
        if p[n - 1] == '/' {
            let k = keep_segment(d, c);
            assert forall|i: int| 0 <= i < k.len() implies good_segment(#[trigger] k[i]) by {
                if i < d.len() {
                    assert(k[i] == d[i]);
                }
            }
        } else {
            let c2 = c.push(p[n - 1]);
            assert forall|i: int| 0 <= i < c2.len() implies c2[i] != '/' by {
                if i < c.len() {
                    assert(c2[i] == c[i]);
                }
            }
        }
    }
}

proof fn lemma_segments_good(p: Seq<char>)
    ensures
        forall|i: int| 0 <= i < segments(p).len() ==> good_segment(#[trigger] segments(p)[i]),
{
    lemma_scan_good(p, p.len());
    let (d, c) = scan_segments(p, p.len());
    let k = keep_segment(d, c);
    assert forall|i: int| 0 <= i < k.len() implies good_segment(#[trigger] k[i]) by {
        if i < d.len() {
            assert(k[i] == d[i]);
        }
    }
}

/// Good components joined by separators are read back as the same components, and the
/// joined text does not start at the root.
proof fn lemma_join_segments(s: Seq<Seq<char>>)
    requires
        forall|i: int| 0 <= i < s.len() ==> good_segment(#[trigger] s[i]),
    ensures
        segments(join_segments(s)) == s,
        !is_absolute(join_segments(s)),
        s.len() > 0 ==> join_segments(s).len() > 0,
    decreases s.len(),
{
    if s.len() == 0 {
        assert(segments(Seq::<char>::empty()) =~= Seq::<Seq<char>>::empty());
    } else if s.len() == 1 {
        assert(good_segment(s[0]));
        lemma_scan_plain(s[0], s[0].len());
        assert(s[0].take(s[0].len() as int) =~= s[0]);
        assert(segments(s[0]) =~= seq![s[0]]);
        assert(s =~= seq![s[0]]);
    } else {
        let dl = s.drop_last();
        assert forall|i: int| 0 <= i < dl.len() implies good_segment(#[trigger] dl[i]) by {
            assert(dl[i] == s[i]);
        }
        lemma_join_segments(dl);
        let x = join_segments(dl);
        lemma_segments_slash(x);
        let last = s.last();
        assert(good_segment(s[s.len() - 1]));
        lemma_scan_plain(last, last.len());
        assert(last.take(last.len() as int) =~= last);
        assert(segments(last) =~= seq![last]);
        lemma_segments_concat(x + seq!['/'], last);
        assert(s =~= dl + seq![last]);
        assert((x + seq!['/'] + last)[0] == x[0]);
    }
}

/// `Path::strip_prefix` and `Path::join` undo each other: the base joined with what is
/// left of a path once the base is stripped from it has the path's components, and
/// starts at the root exactly when the path does.
pub proof fn stripped_path_joins_back(path: Seq<char>, base: Seq<char>)
    requires
        strip_prefix(path, base) is Some,
    ensures
        segments(join(base, strip_prefix(path, base)->0)) == segments(path),
        is_absolute(join(base, strip_prefix(path, base)->0)) == is_absolute(path),
{
    let k = segments(base).len() as int;
    let tail = segments(path).skip(k);
    let rel = join_segments(tail);
    lemma_segments_good(path);
    assert forall|i: int| 0 <= i < tail.len() implies good_segment(#[trigger] tail[i]) by {
        assert(tail[i] == segments(path)[k + i]);
    }
    lemma_join_segments(tail);
    assert(segments(path).take(k) + tail =~= segments(path));
    if base.len() == 0 {
        assert(segments(base) =~= Seq::<Seq<char>>::empty()) by {
            assert(segments(Seq::<char>::empty()) =~= Seq::<Seq<char>>::empty());
        }
        assert(tail =~= segments(path));
    } else if base.last() == '/' {
        assert(base =~= base.drop_last() + seq!['/']);
        lemma_segments_slash(base.drop_last());
        lemma_segments_concat(base, rel);
        assert((base + rel)[0] == base[0]);
    } else {
        lemma_segments_slash(base);
        lemma_segments_concat(base + seq!['/'], rel);
        assert((base + seq!['/'] + rel)[0] == base[0]);
    }
}

} // verus!
