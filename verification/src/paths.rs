use vstd::prelude::*;
use vstd::string::{StrSliceExecFns, StringExecFns};

use crate::error::StorageError;
use crate::text::{join_path, spec_join};

verus! {

/// The pieces of a path text between its slashes, in order.
pub open spec fn path_pieces(s: Seq<char>) -> Seq<Seq<char>>
    decreases s.len(),
{
    if s.len() == 0 {
        seq![Seq::<char>::empty()]
    } else {
        let r = path_pieces(s.drop_last());
        if s.last() == '/' {
            r.push(Seq::<char>::empty())
        } else {
            r.update(r.len() - 1, r.last().push(s.last()))
        }
    }
}

/// Whether a piece names a component: it is neither empty nor `.`.
pub open spec fn is_component(p: Seq<char>) -> bool {
    p.len() > 0 && p != seq!['.']
}

pub open spec fn component_pred() -> spec_fn(Seq<char>) -> bool {
    |p: Seq<char>| is_component(p)
}

/// Whether a path text starts at the root.
pub open spec fn is_rooted(s: Seq<char>) -> bool {
    s.len() > 0 && s[0] == '/'
}

/// The components of a path text as `Path::components` gives them on Unix:
/// the root first, written `/`, for a rooted path; then `.` for a relative
/// path whose first piece is `.`; then the pieces that are neither empty nor
/// `.`, in order.
pub open spec fn path_components(s: Seq<char>) -> Seq<Seq<char>> {
    let ps = path_pieces(s);
    (if is_rooted(s) {
        seq![seq!['/']]
    } else {
        Seq::<Seq<char>>::empty()
    }) + (if !is_rooted(s) && ps[0] == seq!['.'] {
        seq![seq!['.']]
    } else {
        Seq::<Seq<char>>::empty()
    }) + ps.filter(component_pred())
}

/// Pieces joined by slashes.
pub open spec fn join_pieces(ps: Seq<Seq<char>>) -> Seq<char>
    decreases ps.len(),
{
    if ps.len() == 0 {
        Seq::empty()
    } else if ps.len() == 1 {
        ps[0]
    } else {
        join_pieces(ps.drop_last()) + seq!['/'] + ps.last()
    }
}

/// The part of `path` below `root`, as `Path::strip_prefix` gives it: the
/// components of `root` must be the first components of `path`, and the
/// rest is the remaining components joined by slashes (starting at the root
/// when `root` has no components and `path` is rooted); `None` when `path`
/// does not lie below `root`.
pub open spec fn spec_strip_prefix(path: Seq<char>, root: Seq<char>) -> Option<Seq<char>> {
    let pc = path_components(path);
    let rc = path_components(root);
    if rc.len() <= pc.len() && pc.take(rc.len() as int) == rc {
        if rc.len() == 0 && is_rooted(path) {
            Some(seq!['/'] + join_pieces(pc.skip(1)))
        } else {
            Some(join_pieces(pc.skip(rc.len() as int)))
        }
    } else {
        None
    }
}

proof fn lemma_pieces_nonempty(s: Seq<char>)
    ensures
        path_pieces(s).len() >= 1,
    decreases s.len(),
{
    if s.len() > 0 {
        lemma_pieces_nonempty(s.drop_last());
    }
}

/// The pieces of a path text.
fn pieces_of(s: &String) -> (r: Vec<String>)
    ensures
        r@.map_values(|x: String| x@) == path_pieces(s@),
{
    let n = s.as_str().unicode_len();
    let mut done: Vec<String> = Vec::new();
    let mut start: usize = 0;
    let mut i: usize = 0;
    proof {
        assert(s@.take(0) =~= Seq::<char>::empty());
        assert(done@.map_values(|x: String| x@).push(s@.subrange(0, 0)) =~= path_pieces(s@.take(0)));
    }
    while i < n
        invariant
            n == s@.len(),
            start <= i <= n,
            done@.map_values(|x: String| x@).push(s@.subrange(start as int, i as int)) == path_pieces(
                s@.take(i as int),
            ),
        decreases n - i,
    {
        let c = s.as_str().get_char(i);
        proof {
            assert(s@.take(i + 1).drop_last() =~= s@.take(i as int));
            assert(s@.take(i + 1).last() == c);
            lemma_pieces_nonempty(s@.take(i as int));
        }
        if c == '/' {
            let piece = String::from_str(s.as_str().substring_char(start, i));
            let ghost d0 = done@.map_values(|x: String| x@);
            done.push(piece);
            proof {
                assert(done@.map_values(|x: String| x@) =~= d0.push(piece@));
                assert(s@.subrange(i + 1, i + 1) =~= Seq::<char>::empty());
            }
            start = i + 1;
        } else {
            proof {
                assert(s@.subrange(start as int, i + 1) =~= s@.subrange(start as int, i as int).push(c));
            }
        }
        i = i + 1;
    }
    let last = String::from_str(s.as_str().substring_char(start, n));
    let ghost d0 = done@.map_values(|x: String| x@);
    done.push(last);
    proof {
        assert(done@.map_values(|x: String| x@) =~= d0.push(last@));
        assert(s@.take(n as int) =~= s@);
    }
    done
}

fn is_dot(p: &String) -> (r: bool)
    ensures
        r == (p@ == seq!['.']),
{
    if p.as_str().unicode_len() == 1 && p.as_str().get_char(0) == '.' {
        proof {
            assert(p@ =~= seq!['.']);
        }
        true
    } else {
        false
    }
}

/// The components of a path text.
fn components_of(s: &String) -> (r: Vec<String>)
    ensures
        r@.map_values(|x: String| x@) == path_components(s@),
{
    let ps = pieces_of(s);
    let ghost pv = ps@.map_values(|x: String| x@);
    let n = s.as_str().unicode_len();
    let rooted = n > 0 && s.as_str().get_char(0) == '/';
    let mut out: Vec<String> = Vec::new();
    proof {
        lemma_pieces_nonempty(s@);
    }
    proof {
        assert(rooted == is_rooted(s@));
        assert(ps@[0]@ == pv[0]);
    }
    if rooted {
        let root_piece = String::from_str("/");
        proof {
            reveal_strlit("/");
            assert(root_piece@ =~= seq!['/']);
        }
        out.push(root_piece);
        proof {
            assert(out@.map_values(|x: String| x@) =~= seq![seq!['/']]);
        }
    } else if is_dot(&ps[0]) {
        let dot = String::from_str(".");
        proof {
            reveal_strlit(".");
            assert(dot@ =~= seq!['.']);
        }
        out.push(dot);
        proof {
            assert(out@.map_values(|x: String| x@) =~= seq![seq!['.']]);
        }
    } else {
        proof {
            assert(out@.map_values(|x: String| x@) =~= Seq::<Seq<char>>::empty());
        }
    }
    let ghost head = out@.map_values(|x: String| x@);
    proof {
        assert(head =~= (if is_rooted(s@) {
            seq![seq!['/']]
        } else {
            Seq::<Seq<char>>::empty()
        }) + (if !is_rooted(s@) && pv[0] == seq!['.'] {
            seq![seq!['.']]
        } else {
            Seq::<Seq<char>>::empty()
        }));
        assert(pv.take(0).filter(component_pred()) =~= Seq::<Seq<char>>::empty());
        assert(head + pv.take(0).filter(component_pred()) =~= head);
    }
    let mut j: usize = 0;
    while j < ps.len()
        invariant
            pv == ps@.map_values(|x: String| x@),
            j <= ps@.len(),
            out@.map_values(|x: String| x@) == head + pv.take(j as int).filter(component_pred()),
        decreases ps@.len() - j,
    {
        proof {
            assert(pv.take(j + 1) =~= pv.take(j as int).push(pv[j as int]));
            pv.take(j as int).lemma_filter_push(pv[j as int], component_pred());
        }
        let p = &ps[j];
        if p.as_str().unicode_len() > 0 && !is_dot(p) {
            let ghost o0 = out@.map_values(|x: String| x@);
            out.push(p.clone());
            proof {
                assert(out@.map_values(|x: String| x@) =~= o0.push(pv[j as int]));
            }
        }
        j = j + 1;
    }
    proof {
        assert(pv.take(j as int) =~= pv);
    }
    out
}

/// The pieces `ps[from..]` joined by slashes.
fn join_from(ps: &Vec<String>, from: usize) -> (r: String)
    requires
        from <= ps@.len(),
    ensures
        r@ == join_pieces(ps@.map_values(|x: String| x@).skip(from as int)),
{
    let ghost pv = ps@.map_values(|x: String| x@).skip(from as int);
    let mut acc = String::from_str("");
    proof {
        reveal_strlit("");
        assert(pv.take(0) =~= Seq::<Seq<char>>::empty());
    }
    let mut j: usize = from;
    while j < ps.len()
        invariant
            from <= j <= ps@.len(),
            pv == ps@.map_values(|x: String| x@).skip(from as int),
            acc@ == join_pieces(pv.take(j - from)),
        decreases ps@.len() - j,
    {
        proof {
            assert(pv.take(j - from + 1).drop_last() =~= pv.take(j - from));
            assert(pv.take(j - from + 1).last() == ps@[j as int]@);
        }
        if j > from {
            acc.append("/");
            proof {
                reveal_strlit("/");
            }
        }
        acc.append(ps[j].as_str());
        proof {
            if j == from {
                assert(pv.take(1) =~= seq![ps@[j as int]@]);
                assert(acc@ =~= ps@[j as int]@);
            } else {
                assert(acc@ =~= join_pieces(pv.take(j - from)) + seq!['/'] + ps@[j as int]@);
            }
        }
        j = j + 1;
    }
    proof {
        assert(pv.take(j - from) =~= pv);
    }
    acc
}

/// The path below `root` of `path`, or `None` when it does not lie below it.
pub fn strip_prefix(path: &String, root: &String) -> (r: Option<String>)
    ensures
        match spec_strip_prefix(path@, root@) {
            Some(rel) => r matches Some(s) && s@ == rel,
            None => r is None,
        },
{
    let pc = components_of(path);
    let rc = components_of(root);
    let ghost pv = pc@.map_values(|x: String| x@);
    let ghost rv = rc@.map_values(|x: String| x@);
    if rc.len() > pc.len() {
        return None;
    }
    let mut k: usize = 0;
    while k < rc.len()
        invariant
            rc@.len() <= pc@.len(),
            k <= rc@.len(),
            pv == pc@.map_values(|x: String| x@),
            rv == rc@.map_values(|x: String| x@),
            pv == path_components(path@),
            rv == path_components(root@),
            forall|m: int| 0 <= m < k ==> pv[m] == rv[m],
        decreases rc@.len() - k,
    {
        if pc[k] != rc[k] {
            proof {
                assert(pv[k as int] == pc@[k as int]@);
                assert(rv[k as int] == rc@[k as int]@);
                assert(pv.take(rv.len() as int)[k as int] != rv[k as int]);
            }
            return None;
        }
        k = k + 1;
    }
    proof {
        assert(pv.take(rv.len() as int) =~= rv);
    }
    let n = path.as_str().unicode_len();
    if rc.len() == 0 && n > 0 && path.as_str().get_char(0) == '/' {
        let mut r = String::from_str("/");
        proof {
            reveal_strlit("/");
        }
        let rest = join_from(&pc, 1);
        r.append(rest.as_str());
        Some(r)
    } else {
        Some(join_from(&pc, rc.len()))
    }
}

/// Where a file below `root` is first written: the same place below
/// `temp_root`; `None` when the file does not lie below `root`.
pub open spec fn spec_temp_path(root: Seq<char>, temp_root: Seq<char>, path: Seq<char>) -> Option<
    Seq<char>,
> {
    match spec_strip_prefix(path, root) {
        Some(rel) => Some(spec_join(temp_root, rel)),
        None => None,
    }
}

/// The temporary path of `path`, or the error for a path outside `root`.
pub fn temp_path(root: &String, temp_root: &String, path: &String) -> (r: Result<
    String,
    StorageError,
>)
    ensures
        match spec_temp_path(root@, temp_root@, path@) {
            Some(t) => r matches Ok(s) && s@ == t,
            None => r matches Err(StorageError::RelativePath),
        },
{
    match strip_prefix(path, root) {
        Some(rel) => Ok(join_path(temp_root, &rel)),
        None => Err(StorageError::RelativePath),
    }
}

proof fn lemma_pieces_concat(a: Seq<char>, b: Seq<char>)
    ensures
        path_pieces(a + seq!['/'] + b) == path_pieces(a) + path_pieces(b),
    decreases b.len(),
{
    let c = a + seq!['/'] + b;
    if b.len() == 0 {
        assert(c.drop_last() =~= a);
        assert(path_pieces(c) =~= path_pieces(a) + path_pieces(b));
    } else {
        assert(c.drop_last() =~= a + seq!['/'] + b.drop_last());
        lemma_pieces_concat(a, b.drop_last());
        lemma_pieces_nonempty(b.drop_last());
        let pa = path_pieces(a);
        let pb = path_pieces(b.drop_last());
        if b.last() == '/' {
            assert(path_pieces(c) =~= pa + path_pieces(b));
        } else {
            assert(path_pieces(c) =~= pa + path_pieces(b));
        }
    }
}

proof fn lemma_join_pieces(s: Seq<char>)
    ensures
        join_pieces(path_pieces(s)) == s,
    decreases s.len(),
{
    if s.len() == 0 {
        assert(path_pieces(s) =~= seq![Seq::<char>::empty()]);
    } else {
        lemma_join_pieces(s.drop_last());
        lemma_pieces_nonempty(s.drop_last());
        let p0 = path_pieces(s.drop_last());
        let p = path_pieces(s);
        if s.last() == '/' {
            assert(p.drop_last() =~= p0);
            assert(s =~= s.drop_last() + seq!['/'] + Seq::<char>::empty());
        } else if p0.len() == 1 {
            assert(s =~= s.drop_last().push(s.last()));
        } else {
            assert(p.drop_last() =~= p0.drop_last());
            assert(join_pieces(p0) == join_pieces(p0.drop_last()) + seq!['/'] + p0.last());
            assert(s == s.drop_last().push(s.last()));
            assert(s =~= join_pieces(p0.drop_last()) + seq!['/'] + p0.last().push(s.last()));
        }
    }
}

proof fn lemma_filter_all(ps: Seq<Seq<char>>)
    requires
        forall|i: int| 0 <= i < ps.len() ==> is_component(#[trigger] ps[i]),
    ensures
        ps.filter(component_pred()) == ps,
    decreases ps.len(),
{
    if ps.len() > 0 {
        lemma_filter_all(ps.drop_last());
        ps.drop_last().lemma_filter_push(ps.last(), component_pred());
        assert(ps.drop_last().push(ps.last()) =~= ps);
    } else {
        reveal(Seq::filter);
    }
}

/// A file placed below a rooted root is written at the same place below
/// the temporary root, whenever each piece of its place below the root is a
/// component (neither empty nor `.`).
pub proof fn lemma_temp_path_of_joined(root: Seq<char>, temp_root: Seq<char>, sub: Seq<char>)
    requires
        is_rooted(root),
        forall|i: int|
            0 <= i < path_pieces(sub).len() ==> is_component(#[trigger] path_pieces(sub)[i]),
    ensures
        spec_temp_path(root, temp_root, spec_join(root, sub)) == Some(spec_join(temp_root, sub)),
{
    lemma_pieces_nonempty(sub);
    lemma_pieces_nonempty(root);
    assert(is_component(path_pieces(sub)[0]));
    if sub.len() == 0 {
        assert(path_pieces(sub) =~= seq![Seq::<char>::empty()]);
    }
    if sub[0] == '/' {
        assert(sub =~= Seq::<char>::empty() + seq!['/'] + sub.skip(1));
        lemma_pieces_concat(Seq::<char>::empty(), sub.skip(1));
        assert(path_pieces(Seq::<char>::empty()) =~= seq![Seq::<char>::empty()]);
        assert(path_pieces(sub)[0] == Seq::<char>::empty());
    }
    let r1 = if root.last() == '/' { root.drop_last() } else { root };
    let p = spec_join(root, sub);
    assert(p =~= r1 + seq!['/'] + sub);
    lemma_pieces_concat(r1, sub);
    let pr = path_pieces(r1);
    let psub = path_pieces(sub);
    lemma_filter_all(psub);
    Seq::filter_distributes_over_add(pr, psub, component_pred());
    if root.last() == '/' {
        assert(root.drop_last().push('/') =~= root);
        assert(path_pieces(root) == pr.push(Seq::<char>::empty()));
        pr.lemma_filter_push(Seq::<char>::empty(), component_pred());
    }
    assert(path_pieces(root).filter(component_pred()) == pr.filter(component_pred()));
    assert(p[0] == '/');
    let pc = path_components(p);
    let rc = path_components(root);
    assert(pc =~= rc + psub);
    assert(pc.take(rc.len() as int) =~= rc);
    assert(pc.skip(rc.len() as int) =~= psub);
    lemma_join_pieces(sub);
}

} // verus!
