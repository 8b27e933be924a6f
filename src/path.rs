//! Lexical path handling.
//!
//! Paths are Unix paths held as strings, with `/` as the separator.  A path is
//! read as the pieces between its separators; normalizing drops empty pieces
//! and `.`, lets `..` remove the piece before it (never going above the root),
//! and writes the result back with single separators.

use vstd::prelude::*;

verus! {

/// The pieces of `s` that are complete (each followed by a separator), and the
/// piece still being read.
pub open spec fn split_state(s: Seq<char>) -> (Seq<Seq<char>>, Seq<char>)
    decreases s.len(),
{
    if s.len() == 0 {
        (seq![], seq![])
    } else {
        let (done, cur) = split_state(s.drop_last());
        if s.last() == '/' {
            (done.push(cur), seq![])
        } else {
            (done, cur.push(s.last()))
        }
    }
}

/// The text of `s` cut at every separator.  `"/a//b"` gives `"", "a", "", "b"`.
pub open spec fn pieces(s: Seq<char>) -> Seq<Seq<char>> {
    split_state(s).0.push(split_state(s).1)
}

pub open spec fn is_dot(p: Seq<char>) -> bool {
    p == seq!['.']
}

pub open spec fn is_dot_dot(p: Seq<char>) -> bool {
    p == seq!['.', '.']
}

/// A component that names an entry: not empty, no separator, not `.` or `..`.
pub open spec fn is_normal_component(p: Seq<char>) -> bool {
    &&& p.len() > 0
    &&& !p.contains('/')
    &&& !is_dot(p)
    &&& !is_dot_dot(p)
}

pub open spec fn all_normal(cs: Seq<Seq<char>>) -> bool {
    forall|i: int| 0 <= i < cs.len() ==> is_normal_component(#[trigger] cs[i])
}

/// The effect of one piece on the components read so far.
pub open spec fn step(stack: Seq<Seq<char>>, piece: Seq<char>) -> Seq<Seq<char>> {
    if piece.len() == 0 || is_dot(piece) {
        stack
    } else if is_dot_dot(piece) {
        if stack.len() > 0 {
            stack.drop_last()
        } else {
            stack
        }
    } else {
        stack.push(piece)
    }
}

/// The components left after reading the pieces `ps` in order.
pub open spec fn resolve(ps: Seq<Seq<char>>) -> Seq<Seq<char>>
    decreases ps.len(),
{
    if ps.len() == 0 {
        seq![]
    } else {
        step(resolve(ps.drop_last()), ps.last())
    }
}

pub open spec fn is_absolute(s: Seq<char>) -> bool {
    s.len() > 0 && s[0] == '/'
}

/// The components of the normal form of `s`.
pub open spec fn components(s: Seq<char>) -> Seq<Seq<char>> {
    resolve(pieces(s))
}

/// Components joined by single separators.
pub open spec fn joined(cs: Seq<Seq<char>>) -> Seq<char>
    decreases cs.len(),
{
    if cs.len() == 0 {
        seq![]
    } else if cs.len() == 1 {
        cs[0]
    } else {
        joined(cs.drop_last()) + seq!['/'] + cs.last()
    }
}

/// The path written from its components, with a leading separator if absolute.
pub open spec fn rendered(abs: bool, cs: Seq<Seq<char>>) -> Seq<char> {
    if abs {
        seq!['/'] + joined(cs)
    } else {
        joined(cs)
    }
}

/// The lexical normal form of `s`.
pub open spec fn normalized(s: Seq<char>) -> Seq<char> {
    rendered(is_absolute(s), components(s))
}

/// `s` made absolute against the directory `cwd`, then normalized.
pub open spec fn absolute(cwd: Seq<char>, s: Seq<char>) -> Seq<char> {
    if is_absolute(s) {
        normalized(s)
    } else {
        normalized(cwd + seq!['/'] + s)
    }
}

pub open spec fn views(v: Seq<String>) -> Seq<Seq<char>> {
    v.map_values(|x: String| x@)
}

/// Applies one piece to the components read so far.
fn apply_piece(stack: &mut Vec<String>, piece: &str)
    ensures
        views(final(stack)@) == step(views(old(stack)@), piece@),
{
    let n = piece.unicode_len();
    if n == 0 {
        return;
    }
    let c0 = piece.get_char(0);
    if n == 1 && c0 == '.' {
        assert(piece@ =~= seq!['.']);
        return;
    }
    if n == 2 && c0 == '.' && piece.get_char(1) == '.' {
        assert(piece@ =~= seq!['.', '.']);
        if stack.len() > 0 {
            stack.pop();
            assert(views(stack@) =~= views(old(stack)@).drop_last());
        }
        return;
    }
    assert(!is_dot(piece@)) by {
        if n == 1 {
            assert(piece@[0] == c0);
        }
    }
    assert(!is_dot_dot(piece@)) by {
        if n == 2 && c0 == '.' {
            assert(piece@[1] != '.');
        }
    }
    stack.push(piece.to_owned());
    assert(views(stack@) =~= views(old(stack)@).push(piece@));
}

/// Writes components back as a path.
fn render(abs: bool, cs: &Vec<String>) -> (r: String)
    ensures
        r@ == rendered(abs, views(cs@)),
{
    let ghost vs = views(cs@);
    let mut out = String::new();
    if abs {
        out.append("/");
        proof {
            reveal_strlit("/");
        }
    }
    let ghost head: Seq<char> = if abs { seq!['/'] } else { seq![] };
    assert(out@ =~= head);
    let mut k: usize = 0;
    while k < cs.len()
        invariant
            vs == views(cs@),
            k <= cs.len(),
            out@ == head + joined(vs.subrange(0, k as int)),
        decreases cs.len() - k,
    {
        let ghost prev = vs.subrange(0, k as int);
        let ghost next = vs.subrange(0, k + 1);
        assert(next.drop_last() =~= prev);
        if k > 0 {
            out.append("/");
            proof {
                reveal_strlit("/");
            }
        }
        out.append(cs[k].as_str());
        proof {
            if k == 0 {
                assert(joined(prev) =~= seq![]);
                assert(joined(next) == next[0]);
            }
            assert(out@ =~= head + joined(next));
        }
        k = k + 1;
    }
    assert(vs.subrange(0, cs.len() as int) =~= vs);
    out
}

/// The components of the normal form of `path`.
pub fn path_components(path: &str) -> (r: Vec<String>)
    ensures
        views(r@) == components(path@),
{
    let n = path.unicode_len();
    let mut stack: Vec<String> = Vec::new();
    let ghost mut done: Seq<Seq<char>> = seq![];
    let mut start: usize = 0;
    let mut i: usize = 0;
    assert(path@.subrange(0, 0) =~= Seq::<char>::empty());
    assert(views(stack@) =~= seq![]);
    while i < n
        invariant
            n == path@.len(),
            start <= i <= n,
            split_state(path@.subrange(0, i as int)) == (done, path@.subrange(
                start as int,
                i as int,
            )),
            views(stack@) == resolve(done),
        decreases n - i,
    {
        let c = path.get_char(i);
        let ghost pre = path@.subrange(0, i as int);
        assert(path@.subrange(0, i + 1).drop_last() =~= pre);
        if c == '/' {
            let piece = path.substring_char(start, i);
            apply_piece(&mut stack, piece);
            proof {
                assert(done.push(piece@).drop_last() =~= done);
                done = done.push(piece@);
                assert(path@.subrange(i + 1, i + 1) =~= Seq::<char>::empty());
            }
            start = i + 1;
        } else {
            assert(path@.subrange(start as int, i as int).push(c) =~= path@.subrange(
                start as int,
                i + 1,
            ));
        }
        i = i + 1;
    }
    let last = path.substring_char(start, n);
    apply_piece(&mut stack, last);
    proof {
        assert(path@.subrange(0, n as int) =~= path@);
        assert(pieces(path@) == done.push(last@));
        assert(done.push(last@).drop_last() =~= done);
    }
    stack
}

/// The lexical normal form of `path`: repeated separators collapse, `.` is
/// dropped and `..` removes the component before it.  The filesystem is not
/// consulted.
pub fn normalize_path(path: &str) -> (r: String)
    ensures
        r@ == normalized(path@),
{
    let cs = path_components(path);
    let abs = path.unicode_len() > 0 && path.get_char(0) == '/';
    render(abs, &cs)
}

/// `path` made absolute against the directory `cwd` (unless it already is
/// absolute), then normalized.
pub fn absolute_path(cwd: &str, path: &str) -> (r: String)
    ensures
        r@ == absolute(cwd@, path@),
{
    if path.unicode_len() > 0 && path.get_char(0) == '/' {
        normalize_path(path)
    } else {
        let mut joined = cwd.to_owned();
        joined.append("/");
        joined.append(path);
        proof {
            reveal_strlit("/");
            assert(joined@ =~= cwd@ + seq!['/'] + path@);
        }
        normalize_path(joined.as_str())
    }
}



/// Whether two paths name the same entry lexically: both absolute or both
/// relative, with the same components.
pub open spec fn same_path(a: Seq<char>, b: Seq<char>) -> bool {
    is_absolute(a) == is_absolute(b) && components(a) == components(b)
}

/// Whether two paths name the same entry lexically.
pub fn paths_equal(a: &str, b: &str) -> (r: bool)
    ensures
        r == same_path(a@, b@),
{
    let abs_a = a.unicode_len() > 0 && a.get_char(0) == '/';
    let abs_b = b.unicode_len() > 0 && b.get_char(0) == '/';
    if abs_a != abs_b {
        return false;
    }
    let ca = path_components(a);
    let cb = path_components(b);
    assert(views(ca@).len() == ca@.len());
    assert(views(cb@).len() == cb@.len());
    if ca.len() != cb.len() {
        return false;
    }
    let r = crate::scratch::is_prefix_of(&ca, &cb);
    proof {
        assert(views(cb@).subrange(0, views(ca@).len() as int) =~= views(cb@));
    }
    r
}

pub open spec fn slashless(ps: Seq<Seq<char>>) -> bool {
    forall|i: int| 0 <= i < ps.len() ==> !(#[trigger] ps[i]).contains('/')
}

proof fn lemma_split_slashless(s: Seq<char>)
    ensures
        slashless(split_state(s).0),
        !split_state(s).1.contains('/'),
        slashless(pieces(s)),
    decreases s.len(),
{
    if s.len() > 0 {
        lemma_split_slashless(s.drop_last());
        let (d, c) = split_state(s.drop_last());
        if s.last() == '/' {
            assert forall|i: int| 0 <= i < d.push(c).len() implies !(#[trigger] d.push(
                c,
            )[i]).contains('/') by {
                if i < d.len() {
                    assert(d.push(c)[i] == d[i]);
                }
            }
        } else {
            assert forall|j: int| 0 <= j < c.push(s.last()).len() implies c.push(s.last())[j]
                != '/' by {
                if j < c.len() {
                    assert(c.push(s.last())[j] == c[j]);
                } else {
                    assert(c.push(s.last())[j] == s.last());
                }
            }
        }
    }
    let (d, c) = split_state(s);
    assert forall|i: int| 0 <= i < d.push(c).len() implies !(#[trigger] d.push(c)[i]).contains(
        '/',
    ) by {
        if i < d.len() {
            assert(d.push(c)[i] == d[i]);
        }
    }
}

proof fn lemma_resolve_normal(ps: Seq<Seq<char>>)
    requires
        slashless(ps),
    ensures
        all_normal(resolve(ps)),
    decreases ps.len(),
{
    if ps.len() > 0 {
        assert(slashless(ps.drop_last())) by {
            assert forall|i: int| 0 <= i < ps.drop_last().len() implies !(
            #[trigger] ps.drop_last()[i]).contains('/') by {
                assert(ps.drop_last()[i] == ps[i]);
            }
        }
        lemma_resolve_normal(ps.drop_last());
        let st = resolve(ps.drop_last());
        let p = ps.last();
        if p.len() > 0 && !is_dot(p) && !is_dot_dot(p) {
            assert(!ps[ps.len() - 1].contains('/'));
            assert forall|i: int| 0 <= i < st.push(p).len() implies is_normal_component(
                #[trigger] st.push(p)[i],
            ) by {
                if i < st.len() {
                    assert(st.push(p)[i] == st[i]);
                }
            }
        } else if is_dot_dot(p) && st.len() > 0 {
            assert forall|i: int| 0 <= i < st.drop_last().len() implies is_normal_component(
                #[trigger] st.drop_last()[i],
            ) by {
                assert(st.drop_last()[i] == st[i]);
            }
        }
    }
}

/// Reading text without a separator only extends the current piece.
proof fn lemma_split_no_separator(a: Seq<char>, z: Seq<char>)
    requires
        !z.contains('/'),
    ensures
        split_state(a + z) == (split_state(a).0, split_state(a).1 + z),
    decreases z.len(),
{
    if z.len() == 0 {
        assert(a + z =~= a);
        assert(split_state(a).1 + z =~= split_state(a).1);
    } else {
        let z2 = z.drop_last();
        assert(!z2.contains('/')) by {
            assert forall|j: int| 0 <= j < z2.len() implies z2[j] != '/' by {
                assert(z2[j] == z[j]);
            }
        }
        lemma_split_no_separator(a, z2);
        assert((a + z).drop_last() =~= a + z2);
        assert((a + z).last() == z.last());
        assert(z.last() != '/') by {
            assert(z[z.len() - 1] == z.last());
        }
        assert((split_state(a).1 + z2).push(z.last()) =~= split_state(a).1 + z);
    }
}

/// A separator followed by text without one closes the pieces before it.
proof fn lemma_split_last_piece(y: Seq<char>, z: Seq<char>)
    requires
        !z.contains('/'),
    ensures
        pieces(y + seq!['/'] + z) == pieces(y).push(z),
{
    let ys = y + seq!['/'];
    assert(ys.drop_last() =~= y);
    assert(split_state(ys) == (pieces(y), Seq::<char>::empty()));
    lemma_split_no_separator(ys, z);
    assert(Seq::<char>::empty() + z =~= z);
}

proof fn lemma_pieces_joined(cs: Seq<Seq<char>>)
    requires
        cs.len() >= 1,
        slashless(cs),
    ensures
        pieces(joined(cs)) == cs,
        pieces(seq!['/'] + joined(cs)) == seq![Seq::<char>::empty()] + cs,
    decreases cs.len(),
{
    if cs.len() == 1 {
        assert(!cs[0].contains('/'));
        lemma_split_no_separator(Seq::<char>::empty(), cs[0]);
        assert(Seq::<char>::empty() + cs[0] =~= cs[0]);
        assert(seq![].push(cs[0]) =~= cs);
        lemma_split_last_piece(Seq::<char>::empty(), cs[0]);
        assert(Seq::<char>::empty() + seq!['/'] + cs[0] =~= seq!['/'] + joined(cs));
        assert(pieces(Seq::<char>::empty()) =~= seq![Seq::<char>::empty()]);
        assert(seq![Seq::<char>::empty()].push(cs[0]) =~= seq![Seq::<char>::empty()] + cs);
    } else {
        let rest = cs.drop_last();
        assert(slashless(rest)) by {
            assert forall|i: int| 0 <= i < rest.len() implies !(#[trigger] rest[i]).contains(
                '/',
            ) by {
                assert(rest[i] == cs[i]);
            }
        }
        lemma_pieces_joined(rest);
        assert(!cs[cs.len() - 1].contains('/'));
        lemma_split_last_piece(joined(rest), cs.last());
        assert(rest.push(cs.last()) =~= cs);
        lemma_split_last_piece(seq!['/'] + joined(rest), cs.last());
        assert(seq!['/'] + joined(rest) + seq!['/'] + cs.last() =~= seq!['/'] + joined(cs));
        assert((seq![Seq::<char>::empty()] + rest).push(cs.last()) =~= seq![
            Seq::<char>::empty(),
        ] + cs);
    }
}

proof fn lemma_resolve_append(ps: Seq<Seq<char>>, cs: Seq<Seq<char>>)
    requires
        all_normal(cs),
    ensures
        resolve(ps + cs) == resolve(ps) + cs,
    decreases cs.len(),
{
    if cs.len() == 0 {
        assert(ps + cs =~= ps);
        assert(resolve(ps) + cs =~= resolve(ps));
    } else {
        let rest = cs.drop_last();
        assert(all_normal(rest)) by {
            assert forall|i: int| 0 <= i < rest.len() implies is_normal_component(
                #[trigger] rest[i],
            ) by {
                assert(rest[i] == cs[i]);
            }
        }
        lemma_resolve_append(ps, rest);
        assert((ps + cs).drop_last() =~= ps + rest);
        assert((ps + cs).last() == cs.last());
        assert(is_normal_component(cs[cs.len() - 1]));
        assert((resolve(ps) + rest).push(cs.last()) =~= resolve(ps) + cs);
    }
}

proof fn lemma_joined_first(cs: Seq<Seq<char>>)
    requires
        cs.len() >= 1,
        cs[0].len() > 0,
    ensures
        joined(cs).len() > 0,
        joined(cs)[0] == cs[0][0],
    decreases cs.len(),
{
    if cs.len() > 1 {
        lemma_joined_first(cs.drop_last());
    }
}

/// No piece is `.` or `..`.
pub open spec fn no_dot_pieces(ps: Seq<Seq<char>>) -> bool {
    forall|i: int| 0 <= i < ps.len() ==> !is_dot(#[trigger] ps[i]) && !is_dot_dot(ps[i])
}

/// The components and the pieces of a path that is already normal.
pub proof fn lemma_rendered_normal(abs: bool, cs: Seq<Seq<char>>)
    requires
        all_normal(cs),
    ensures
        is_absolute(rendered(abs, cs)) == abs,
        components(rendered(abs, cs)) == cs,
        no_dot_pieces(pieces(rendered(abs, cs))),
{
    assert(slashless(cs)) by {
        assert forall|i: int| 0 <= i < cs.len() implies !(#[trigger] cs[i]).contains('/') by {
            assert(is_normal_component(cs[i]));
        }
    }
    let e = seq![Seq::<char>::empty()];
    if cs.len() == 0 {
        assert(cs =~= Seq::<Seq<char>>::empty());
        if abs {
            let r = seq!['/'];
            assert(rendered(abs, cs) =~= r);
            assert(r.drop_last() =~= Seq::<char>::empty());
            assert(split_state(r.drop_last()) == (Seq::<Seq<char>>::empty(), Seq::<char>::empty()));
            assert(split_state(r) == (e, Seq::<char>::empty()));
            assert(pieces(r) =~= seq![Seq::<char>::empty(), Seq::<char>::empty()]);
            assert(pieces(r).drop_last() =~= e);
            assert(e.drop_last() =~= Seq::<Seq<char>>::empty());
            assert(e.last().len() == 0);
            assert(resolve(e.drop_last()) =~= Seq::<Seq<char>>::empty());
            assert(resolve(e) =~= Seq::<Seq<char>>::empty());
            assert(resolve(pieces(r)) =~= Seq::<Seq<char>>::empty());
            assert(components(rendered(abs, cs)) == cs);
        } else {
            assert(pieces(rendered(abs, cs)) =~= e);
            assert(e.drop_last() =~= Seq::<Seq<char>>::empty());
            assert(e.last().len() == 0);
            assert(resolve(e.drop_last()) =~= Seq::<Seq<char>>::empty());
            assert(resolve(e) =~= Seq::<Seq<char>>::empty());
        }
    } else {
        lemma_pieces_joined(cs);
        assert(is_normal_component(cs[0]));
        lemma_joined_first(cs);
        if abs {
            lemma_resolve_append(e, cs);
            assert(e.drop_last() =~= Seq::<Seq<char>>::empty());
            assert(e.last().len() == 0);
            assert(resolve(e.drop_last()) =~= Seq::<Seq<char>>::empty());
            assert(resolve(e) =~= Seq::<Seq<char>>::empty());
            assert(Seq::<Seq<char>>::empty() + cs =~= cs);
            assert(components(rendered(abs, cs)) == cs);
            let ps = e + cs;
            assert forall|i: int| 0 <= i < ps.len() implies !is_dot(#[trigger] ps[i])
                && !is_dot_dot(ps[i]) by {
                if i > 0 {
                    assert(ps[i] == cs[i - 1]);
                    assert(is_normal_component(cs[i - 1]));
                } else {
                    assert(ps[0].len() == 0);
                }
            }
        } else {
            assert(cs[0].contains(cs[0][0]));
            lemma_resolve_append(Seq::<Seq<char>>::empty(), cs);
            assert(Seq::<Seq<char>>::empty() + cs =~= cs);
            assert forall|i: int| 0 <= i < cs.len() implies !is_dot(#[trigger] cs[i])
                && !is_dot_dot(cs[i]) by {
                assert(is_normal_component(cs[i]));
            }
        }
    }
}

/// Normalizing twice gives what normalizing once gives, every component of
/// the normal form names an entry, and no piece of a normalized path is `.` or
/// `..`.
pub proof fn lemma_normalize_idempotent(s: Seq<char>)
    ensures
        normalized(normalized(s)) == normalized(s),
        all_normal(components(s)),
        no_dot_pieces(pieces(normalized(s))),
{
    lemma_split_slashless(s);
    lemma_resolve_normal(pieces(s));
    lemma_rendered_normal(is_absolute(s), components(s));
}

} // verus!
