//! A lexical model of slash-separated paths: splitting into components,
//! collapsing `.` and `..`, rendering back to text, and component-wise prefix
//! containment.
use vstd::prelude::*;
use crate::text::{chars_of, same_text};

verus! {

/// The sequence of component texts held by a vector of strings.
pub open spec fn views(v: Seq<String>) -> Seq<Seq<char>> {
    v.map_values(|x: String| x@)
}

/// A path is absolute when it starts at the root separator.
pub open spec fn is_absolute(s: Seq<char>) -> bool {
    s.len() > 0 && s[0] == '/'
}

pub open spec fn dot() -> Seq<char> {
    seq!['.']
}

pub open spec fn dot_dot() -> Seq<char> {
    seq!['.', '.']
}

pub open spec fn no_sep(c: Seq<char>) -> bool {
    forall|i: int| 0 <= i < c.len() ==> c[i] != '/'
}

/// A component as it can stand in a split path: non-empty, free of
/// separators, and not the current-directory marker.
pub open spec fn is_plain(c: Seq<char>) -> bool {
    c.len() > 0 && c != dot() && no_sep(c)
}

pub open spec fn all_plain(cs: Seq<Seq<char>>) -> bool {
    forall|i: int| 0 <= i < cs.len() ==> is_plain(#[trigger] cs[i])
}

pub open spec fn no_parent(cs: Seq<Seq<char>>) -> bool {
    forall|i: int| 0 <= i < cs.len() ==> #[trigger] cs[i] != dot_dot()
}

/// Ends the pending segment: empty segments and `.` are dropped.
pub open spec fn keep(done: Seq<Seq<char>>, seg: Seq<char>) -> Seq<Seq<char>> {
    if seg.len() == 0 || seg == dot() {
        done
    } else {
        done.push(seg)
    }
}

/// One character of the left-to-right scan: a separator closes the pending
/// segment, any other character extends it.
pub open spec fn step(st: (Seq<Seq<char>>, Seq<char>), c: char) -> (Seq<Seq<char>>, Seq<char>) {
    if c == '/' {
        (keep(st.0, st.1), Seq::empty())
    } else {
        (st.0, st.1.push(c))
    }
}

pub open spec fn scan_from(st: (Seq<Seq<char>>, Seq<char>), s: Seq<char>) -> (
    Seq<Seq<char>>,
    Seq<char>,
)
    decreases s.len(),
{
    if s.len() == 0 {
        st
    } else {
        step(scan_from(st, s.drop_last()), s.last())
    }
}

pub open spec fn start_state() -> (Seq<Seq<char>>, Seq<char>) {
    (Seq::empty(), Seq::empty())
}

/// The components of a path: the separator-delimited segments, without empty
/// segments and without `.`.
pub open spec fn components(s: Seq<char>) -> Seq<Seq<char>> {
    let st = scan_from(start_state(), s);
    keep(st.0, st.1)
}

/// Lexical normalization: `..` removes the last kept component, or is
/// dropped when there is none; every other component is kept.
pub open spec fn normalize(cs: Seq<Seq<char>>) -> Seq<Seq<char>>
    decreases cs.len(),
{
    if cs.len() == 0 {
        Seq::empty()
    } else {
        let prev = normalize(cs.drop_last());
        if cs.last() == dot_dot() {
            if prev.len() > 0 {
                prev.drop_last()
            } else {
                prev
            }
        } else {
            prev.push(cs.last())
        }
    }
}

/// Components joined by single separators.
pub open spec fn join(cs: Seq<Seq<char>>) -> Seq<char>
    decreases cs.len(),
{
    if cs.len() == 0 {
        Seq::empty()
    } else if cs.len() == 1 {
        cs[0]
    } else {
        join(cs.drop_last()) + seq!['/'] + cs.last()
    }
}

/// The text of a path with the given anchor and components.
pub open spec fn render(absolute: bool, cs: Seq<Seq<char>>) -> Seq<char> {
    if absolute {
        seq!['/'] + join(cs)
    } else {
        join(cs)
    }
}

/// Component-wise prefix: `path` lies at or below `base`.
pub open spec fn starts_with(path: Seq<char>, base: Seq<char>) -> bool {
    let p = components(path);
    let b = components(base);
    &&& is_absolute(path) == is_absolute(base)
    &&& b.len() <= p.len()
    &&& p.take(b.len() as int) == b
}

// ---------------------------------------------------------------------------
// Lemmas about the scan
pub proof fn lemma_scan_concat(st: (Seq<Seq<char>>, Seq<char>), p: Seq<char>, q: Seq<char>)
    ensures
        scan_from(st, p + q) == scan_from(scan_from(st, p), q),
    decreases q.len(),
{
    if q.len() == 0 {
        assert(p + q =~= p);
    } else {
        assert((p + q).drop_last() =~= p + q.drop_last());
        assert((p + q).last() == q.last());
        lemma_scan_concat(st, p, q.drop_last());
    }
}

/// Components already ended before a scan are carried through it unchanged.
pub proof fn lemma_scan_shift(d: Seq<Seq<char>>, seg: Seq<char>, s: Seq<char>)
    ensures
        scan_from((d, seg), s) == (d + scan_from((Seq::empty(), seg), s).0, scan_from(
            (Seq::empty(), seg),
            s,
        ).1),
    decreases s.len(),
{
    if s.len() > 0 {
        lemma_scan_shift(d, seg, s.drop_last());
        let x = scan_from((Seq::<Seq<char>>::empty(), seg), s.drop_last());
        if x.1.len() > 0 && x.1 != dot() {
            assert((d + x.0).push(x.1) =~= d + x.0.push(x.1));
        }
    } else {
        assert(d + Seq::<Seq<char>>::empty() =~= d);
    }
}

/// Joining two paths with a separator joins their components.
pub proof fn lemma_components_join_sep(a: Seq<char>, b: Seq<char>)
    ensures
        components(a + seq!['/'] + b) == components(a) + components(b),
{
    let st = start_state();
    lemma_scan_concat(st, a + seq!['/'], b);
    lemma_scan_concat(st, a, seq!['/']);
    let sa = scan_from(st, a);
    assert(seq!['/'].drop_last() =~= Seq::<char>::empty());
    assert(scan_from(sa, seq!['/'].drop_last()) == sa);
    assert(scan_from(sa, seq!['/']) == step(sa, '/'));
    let ca = components(a);
    assert(scan_from(st, a + seq!['/']) == (ca, Seq::<char>::empty()));
    lemma_scan_shift(ca, Seq::empty(), b);
    let x = scan_from(st, b);
    if x.1.len() > 0 && x.1 != dot() {
        assert((ca + x.0).push(x.1) =~= ca + x.0.push(x.1));
    }
}

pub proof fn lemma_scan_no_sep(st: (Seq<Seq<char>>, Seq<char>), t: Seq<char>)
    requires
        no_sep(t),
    ensures
        scan_from(st, t) == (st.0, st.1 + t),
    decreases t.len(),
{
    if t.len() == 0 {
        assert(st.1 + t =~= st.1);
    } else {
        lemma_scan_no_sep(st, t.drop_last());
        assert(st.1 + t.drop_last() + seq![t.last()] =~= st.1 + t);
        assert((st.1 + t.drop_last()).push(t.last()) =~= st.1 + t);
    }
}

pub proof fn lemma_scan_join(d: Seq<Seq<char>>, cs: Seq<Seq<char>>)
    requires
        cs.len() > 0,
        all_plain(cs),
    ensures
        scan_from((d, Seq::empty()), join(cs)) == (d + cs.drop_last(), cs.last()),
    decreases cs.len(),
{
    let st0: (Seq<Seq<char>>, Seq<char>) = (d, Seq::empty());
    if cs.len() == 1 {
        assert(is_plain(cs[0]));
        lemma_scan_no_sep(st0, cs[0]);
        assert(Seq::<char>::empty() + cs[0] =~= cs[0]);
        assert(d + cs.drop_last() =~= d);
    } else {
        let init = cs.drop_last();
        assert forall|i: int| 0 <= i < init.len() implies is_plain(#[trigger] init[i]) by {
            assert(init[i] == cs[i]);
        }
        lemma_scan_join(d, init);
        let a = join(init);
        lemma_scan_concat(st0, a + seq!['/'], cs.last());
        lemma_scan_concat(st0, a, seq!['/']);
        let mid = scan_from(st0, a);
        assert(seq!['/'].drop_last() =~= Seq::<char>::empty());
        assert(scan_from(mid, seq!['/'].drop_last()) == mid);
        assert(scan_from(mid, seq!['/']) == step(mid, '/'));
        assert(init.drop_last().push(init.last()) =~= init);
        assert(join(cs) == a + seq!['/'] + cs.last());
        assert(is_plain(init.last()));
        assert(keep(d + init.drop_last(), init.last()) =~= d + cs.drop_last());
        assert(is_plain(cs[cs.len() - 1]));
        lemma_scan_no_sep((d + cs.drop_last(), Seq::empty()), cs.last());
        assert(Seq::<char>::empty() + cs.last() =~= cs.last());
    }
}

pub proof fn lemma_join_first(cs: Seq<Seq<char>>)
    requires
        cs.len() > 0,
        cs[0].len() > 0,
    ensures
        join(cs).len() > 0,
        join(cs)[0] == cs[0][0],
    decreases cs.len(),
{
    if cs.len() > 1 {
        lemma_join_first(cs.drop_last());
    }
}

/// Rendering plain components and splitting the text again gives them back.
pub proof fn lemma_components_render(absolute: bool, cs: Seq<Seq<char>>)
    requires
        all_plain(cs),
    ensures
        components(render(absolute, cs)) == cs,
        is_absolute(render(absolute, cs)) == absolute,
{
    let e: Seq<Seq<char>> = Seq::empty();
    if absolute {
        let slash = seq!['/'];
        lemma_scan_concat(start_state(), slash, join(cs));
        assert(slash.drop_last() =~= Seq::<char>::empty());
        assert(scan_from(start_state(), slash.drop_last()) == start_state());
        assert(scan_from(start_state(), slash) == step(start_state(), '/'));
        assert(scan_from(start_state(), slash) == (e, Seq::<char>::empty()));
        if cs.len() > 0 {
            lemma_scan_join(e, cs);
            assert(e + cs.drop_last() =~= cs.drop_last());
            assert(is_plain(cs[cs.len() - 1]));
            assert(cs.drop_last().push(cs.last()) =~= cs);
        } else {
            assert(slash + join(cs) =~= slash);
        }
    } else {
        if cs.len() > 0 {
            lemma_scan_join(e, cs);
            assert(e + cs.drop_last() =~= cs.drop_last());
            assert(is_plain(cs[cs.len() - 1]));
            assert(cs.drop_last().push(cs.last()) =~= cs);
            assert(is_plain(cs[0]));
            lemma_join_first(cs);
        }
    }
}

pub proof fn lemma_scan_invariant(s: Seq<char>)
    ensures
        all_plain(scan_from(start_state(), s).0),
        no_sep(scan_from(start_state(), s).1),
    decreases s.len(),
{
    if s.len() > 0 {
        lemma_scan_invariant(s.drop_last());
        let st = scan_from(start_state(), s.drop_last());
        if s.last() != '/' {
            assert forall|i: int| 0 <= i < st.1.push(s.last()).len() implies st.1.push(
                s.last(),
            )[i] != '/' by {
                if i < st.1.len() {
                    assert(st.1.push(s.last())[i] == st.1[i]);
                }
            }
        }
    }
}

/// Every component of a path is plain.
pub proof fn lemma_components_plain(s: Seq<char>)
    ensures
        all_plain(components(s)),
{
    lemma_scan_invariant(s);
}

/// Normalization keeps plain components plain and removes every `..`.
pub proof fn lemma_normalize_clean(cs: Seq<Seq<char>>)
    requires
        all_plain(cs),
    ensures
        all_plain(normalize(cs)),
        no_parent(normalize(cs)),
    decreases cs.len(),
{
    if cs.len() > 0 {
        let init = cs.drop_last();
        assert forall|i: int| 0 <= i < init.len() implies is_plain(#[trigger] init[i]) by {
            assert(init[i] == cs[i]);
        }
        lemma_normalize_clean(init);
        assert(is_plain(cs[cs.len() - 1]));
    }
}

/// Without `..`, normalization appends the new components unchanged.
pub proof fn lemma_normalize_append(a: Seq<Seq<char>>, b: Seq<Seq<char>>)
    requires
        no_parent(b),
    ensures
        normalize(a + b) == normalize(a) + b,
    decreases b.len(),
{
    if b.len() == 0 {
        assert(a + b =~= a);
        assert(normalize(a) + b =~= normalize(a));
    } else {
        let init = b.drop_last();
        assert forall|i: int| 0 <= i < init.len() implies #[trigger] init[i] != dot_dot() by {
            assert(init[i] == b[i]);
        }
        lemma_normalize_append(a, init);
        assert((a + b).drop_last() =~= a + init);
        assert((a + b).last() == b.last());
        assert(b[b.len() - 1] != dot_dot());
        assert((normalize(a) + init).push(b.last()) =~= normalize(a) + b);
    }
}

/// A path free of `..` is its own normalization.
pub proof fn lemma_normalize_identity(a: Seq<Seq<char>>)
    requires
        no_parent(a),
    ensures
        normalize(a) == a,
{
    lemma_normalize_append(Seq::empty(), a);
    assert(Seq::<Seq<char>>::empty() + a =~= a);
    assert(normalize(Seq::<Seq<char>>::empty()) + a =~= a);
}

// ---------------------------------------------------------------------------
// Executable counterparts
proof fn lemma_views_push(v: Seq<String>, x: String)
    ensures
        views(v.push(x)) == views(v).push(x@),
{
    assert(views(v.push(x)) =~= views(v).push(x@));
}

/// Splits `s` into its components.
pub fn split_components(s: &str) -> (r: Vec<String>)
    ensures
        views(r@) == components(s@),
{
    let cs = chars_of(s);
    let n = cs.len();
    let mut done: Vec<String> = Vec::new();
    let mut start: usize = 0;
    let mut i: usize = 0;
    proof {
        assert(cs@.take(0) =~= Seq::<char>::empty());
        assert(cs@.subrange(0, 0) =~= Seq::<char>::empty());
        assert(views(done@) =~= Seq::<Seq<char>>::empty());
    }
    while i < n
        invariant
            n == cs@.len(),
            cs@ == s@,
            start <= i <= n,
            scan_from(start_state(), cs@.take(i as int)) == (views(done@), cs@.subrange(
                start as int,
                i as int,
            )),
        decreases n - i,
    {
        proof {
            assert(cs@.take(i + 1).drop_last() =~= cs@.take(i as int));
            assert(cs@.take(i + 1).last() == cs@[i as int]);
        }
        let ghost seg = cs@.subrange(start as int, i as int);
        let ghost old_done = views(done@);
        if cs[i] == '/' {
            let is_dot = i - start == 1 && cs[start] == '.';
            proof {
                if i - start == 1 {
                    assert(seg.len() == 1);
                    if cs@[start as int] == '.' {
                        assert(seg =~= dot());
                    } else {
                        assert(seg[0] != '.');
                        assert(seg != dot());
                    }
                }
            }
            if i > start && !is_dot {
                let piece = s.substring_char(start, i).to_owned();
                proof {
                    lemma_views_push(done@, piece);
                }
                done.push(piece);
            }
            start = i + 1;
            proof {
                assert(cs@.subrange(start as int, (i + 1) as int) =~= Seq::<char>::empty());
            }
        } else {
            proof {
                assert(cs@.subrange(start as int, (i + 1) as int) =~= seg.push(cs@[i as int]));
            }
        }
        i += 1;
    }
    proof {
        assert(cs@.take(n as int) =~= cs@);
    }
    let ghost seg = cs@.subrange(start as int, n as int);
    let is_dot = n - start == 1 && cs[start] == '.';
    proof {
        if n - start == 1 {
            assert(seg.len() == 1);
            if cs@[start as int] == '.' {
                assert(seg =~= dot());
            } else {
                assert(seg[0] != '.');
                assert(seg != dot());
            }
        }
    }
    if n > start && !is_dot {
        let piece = s.substring_char(start, n).to_owned();
        proof {
            lemma_views_push(done@, piece);
        }
        done.push(piece);
    }
    done
}

/// Collapses `.`/`..` lexically, following [`normalize`].
pub fn normalize_components(cs: &Vec<String>) -> (r: Vec<String>)
    ensures
        views(r@) == normalize(views(cs@)),
{
    let mut out: Vec<String> = Vec::new();
    let n = cs.len();
    proof {
        assert(views(cs@).take(0) =~= Seq::<Seq<char>>::empty());
        assert(views(out@) =~= Seq::<Seq<char>>::empty());
    }
    for i in 0..n
        invariant
            n == cs@.len(),
            views(out@) == normalize(views(cs@).take(i as int)),
    {
        let ghost pre = views(cs@).take(i as int);
        proof {
            assert(views(cs@).take(i + 1).drop_last() =~= pre);
            assert(views(cs@).take(i + 1).last() == cs@[i as int]@);
            reveal_strlit("..");
        }
        if same_text(cs[i].as_str(), "..") {
            proof {
                assert(cs@[i as int]@ =~= dot_dot());
            }
            let ghost before = out@;
            out.pop();
            proof {
                if before.len() > 0 {
                    assert(views(out@) =~= views(before).drop_last());
                }
            }
        } else {
            proof {
                assert(cs@[i as int]@ != dot_dot()) by {
                    if cs@[i as int]@ == dot_dot() {
                        assert(cs@[i as int]@ =~= ".."@);
                    }
                }
            }
            let item = cs[i].clone();
            proof {
                lemma_views_push(out@, item);
            }
            out.push(item);
        }
    }
    proof {
        assert(views(cs@).take(n as int) =~= views(cs@));
    }
    out
}

/// Renders components back into path text, rooted when `absolute`.
pub fn render_path(absolute: bool, cs: &Vec<String>) -> (r: String)
    ensures
        r@ == render(absolute, views(cs@)),
{
    proof {
        reveal_strlit("/");
        reveal_strlit("");
    }
    let mut out = if absolute {
        "/".to_owned()
    } else {
        "".to_owned()
    };
    let ghost head: Seq<char> = if absolute {
        seq!['/']
    } else {
        Seq::empty()
    };
    let n = cs.len();
    proof {
        assert(views(cs@).take(0) =~= Seq::<Seq<char>>::empty());
        assert(head + join(Seq::<Seq<char>>::empty()) =~= head);
    }
    for i in 0..n
        invariant
            n == cs@.len(),
            out@ == head + join(views(cs@).take(i as int)),
            head == (if absolute {
                seq!['/']
            } else {
                Seq::<char>::empty()
            }),
    {
        let ghost pre = views(cs@).take(i as int);
        proof {
            assert(views(cs@).take(i + 1).drop_last() =~= pre);
            assert(views(cs@).take(i + 1).last() == cs@[i as int]@);
        }
        proof {
            reveal_strlit("/");
            if i > 0 {
                assert(join(views(cs@).take(i + 1)) == join(pre) + seq!['/'] + cs@[i as int]@);
            }
        }
        if i > 0 {
            out.append("/");
        } else {
            proof {
                assert(views(cs@).take(1).len() == 1);
                assert(head + join(pre) =~= head);
            }
        }
        out.append(cs[i].as_str());
        proof {
            if i > 0 {
                assert(head + join(pre) + seq!['/'] + cs@[i as int]@ =~= head + (join(pre)
                    + seq!['/'] + cs@[i as int]@));
            } else {
                assert(head + cs@[i as int]@ =~= head + join(views(cs@).take(1)));
            }
        }
    }
    proof {
        assert(views(cs@).take(n as int) =~= views(cs@));
        if absolute {
            assert(out@ =~= render(absolute, views(cs@)));
        } else {
            assert(head + join(views(cs@)) =~= join(views(cs@)));
        }
    }
    out
}

/// Whether `path` lies at or below `base`, comparing whole components.
pub fn path_starts_with(path: &str, base: &str) -> (r: bool)
    ensures
        r == starts_with(path@, base@),
{
    let p = split_components(path);
    let b = split_components(base);
    let pa = is_rooted(path);
    let ba = is_rooted(base);
    if pa != ba {
        return false;
    }
    if b.len() > p.len() {
        return false;
    }
    let n = b.len();
    for i in 0..n
        invariant
            n == b@.len(),
            n <= p@.len(),
            views(p@) == components(path@),
            views(b@) == components(base@),
            is_absolute(path@) == is_absolute(base@),
            forall|j: int| 0 <= j < i ==> #[trigger] p@[j]@ == b@[j]@,
    {
        if !same_text(p[i].as_str(), b[i].as_str()) {
            proof {
                assert(views(p@)[i as int] == p@[i as int]@);
                assert(views(b@)[i as int] == b@[i as int]@);
                assert(views(p@).take(n as int)[i as int] != views(b@)[i as int]);
            }
            return false;
        }
    }
    proof {
        assert(views(p@).take(n as int) =~= views(b@));
    }
    true
}

/// Whether `s` starts at the root separator.
pub fn is_rooted(s: &str) -> (r: bool)
    ensures
        r == is_absolute(s@),
{
    let n = s.unicode_len();
    n > 0 && s.get_char(0) == '/'
}

} // verus!
