//! Names of scratch entries, and how paths relate as subtrees.

use vstd::prelude::*;
use crate::path::{
    absolute, all_normal, components, is_absolute, is_dot, is_dot_dot, is_normal_component,
    lemma_normalize_idempotent, lemma_rendered_normal, normalized, rendered, views,
};

verus! {

pub open spec fn digit_char(d: nat) -> char {
    if d == 0 {
        '0'
    } else if d == 1 {
        '1'
    } else if d == 2 {
        '2'
    } else if d == 3 {
        '3'
    } else if d == 4 {
        '4'
    } else if d == 5 {
        '5'
    } else if d == 6 {
        '6'
    } else if d == 7 {
        '7'
    } else if d == 8 {
        '8'
    } else {
        '9'
    }
}

/// The decimal digits of `n`.
pub open spec fn decimal(n: nat) -> Seq<char>
    decreases n,
{
    if n < 10 {
        seq![digit_char(n)]
    } else {
        decimal(n / 10).push(digit_char(n % 10))
    }
}

fn digit(d: usize) -> (c: char)
    requires
        d < 10,
    ensures
        c == digit_char(d as nat),
{
    if d == 0 {
        '0'
    } else if d == 1 {
        '1'
    } else if d == 2 {
        '2'
    } else if d == 3 {
        '3'
    } else if d == 4 {
        '4'
    } else if d == 5 {
        '5'
    } else if d == 6 {
        '6'
    } else if d == 7 {
        '7'
    } else if d == 8 {
        '8'
    } else {
        '9'
    }
}

/// The decimal digits of `n`, as text.
pub fn decimal_string(n: usize) -> (r: String)
    ensures
        r@ == decimal(n as nat),
    decreases n,
{
    if n < 10 {
        let mut s = String::new();
        crate::codec::push_char(&mut s, digit(n));
        assert(s@ =~= decimal(n as nat));
        s
    } else {
        let mut s = decimal_string(n / 10);
        crate::codec::push_char(&mut s, digit(n % 10));
        s
    }
}

proof fn lemma_digit_char_injective(a: nat, b: nat)
    requires
        a < 10,
        b < 10,
        digit_char(a) == digit_char(b),
    ensures
        a == b,
{
}

proof fn lemma_decimal_len(n: nat)
    ensures
        decimal(n).len() >= 1,
        n >= 10 ==> decimal(n).len() >= 2,
    decreases n,
{
    if n >= 10 {
        lemma_decimal_len(n / 10);
    }
}

/// Different numbers have different decimal digits.
pub proof fn lemma_decimal_injective(a: nat, b: nat)
    requires
        decimal(a) == decimal(b),
    ensures
        a == b,
    decreases a,
{
    lemma_decimal_len(a);
    lemma_decimal_len(b);
    if a < 10 && b < 10 {
        assert(decimal(a)[0] == digit_char(a));
        lemma_digit_char_injective(a, b);
    } else if a >= 10 && b >= 10 {
        assert(decimal(a).drop_last() =~= decimal(a / 10));
        assert(decimal(b).drop_last() =~= decimal(b / 10));
        lemma_decimal_injective(a / 10, b / 10);
        assert(decimal(a).last() == digit_char(a % 10));
        lemma_digit_char_injective(a % 10, b % 10);
    }
}

/// The digits of a number name an entry.
pub proof fn lemma_decimal_normal(n: nat)
    ensures
        is_normal_component(decimal(n)),
        forall|i: int| 0 <= i < decimal(n).len() ==> #[trigger] decimal(n)[i] != '.',
    decreases n,
{
    lemma_decimal_len(n);
    if n >= 10 {
        lemma_decimal_normal(n / 10);
        let d = decimal(n / 10);
        assert forall|i: int| 0 <= i < decimal(n).len() implies #[trigger] decimal(n)[i] != '.'
            && decimal(n)[i] != '/' by {
            if i < d.len() {
                assert(decimal(n)[i] == d[i]);
                assert(d[i] != '/') by {
                    if d[i] == '/' {
                        assert(d.contains('/'));
                    }
                }
            }
        }
    }
    let s = decimal(n);
    assert(!s.contains('/')) by {
        if s.contains('/') {
            let i = choose|i: int| 0 <= i < s.len() && s[i] == '/';
            if n >= 10 {
                let d = decimal(n / 10);
                if i < d.len() {
                    assert(s[i] == d[i]);
                    assert(d.contains('/'));
                }
            }
        }
    }
    assert(!is_dot(s)) by {
        if is_dot(s) {
            assert(s[0] == '.');
        }
    }
    assert(!is_dot_dot(s)) by {
        if is_dot_dot(s) {
            assert(s[0] == '.');
        }
    }
}

/// Whether `a` is a prefix of `b`.
pub open spec fn is_prefix(a: Seq<Seq<char>>, b: Seq<Seq<char>>) -> bool {
    a.len() <= b.len() && b.subrange(0, a.len() as int) == a
}

/// Whether the path `a` is `b` or one of its ancestors.
pub open spec fn within(a: Seq<char>, b: Seq<char>) -> bool {
    is_absolute(a) == is_absolute(b) && is_prefix(components(a), components(b))
}

/// Whether the path `a` is a strict ancestor of `b`.
pub open spec fn strict_ancestor(a: Seq<char>, b: Seq<char>) -> bool {
    within(a, b) && components(a).len() < components(b).len()
}

/// Whether neither of two paths lies in the subtree of the other.
pub open spec fn disjoint(a: Seq<char>, b: Seq<char>) -> bool {
    !within(a, b) && !within(b, a)
}

/// Whether the components `a` are a prefix of the components `b`.
pub fn is_prefix_of(a: &Vec<String>, b: &Vec<String>) -> (r: bool)
    ensures
        r == is_prefix(views(a@), views(b@)),
{
    let ghost va = views(a@);
    let ghost vb = views(b@);
    if a.len() > b.len() {
        return false;
    }
    let mut k: usize = 0;
    while k < a.len()
        invariant
            a.len() <= b.len(),
            k <= a.len(),
            va == views(a@),
            vb == views(b@),
            forall|j: int| 0 <= j < k ==> va[j] == vb[j],
        decreases a.len() - k,
    {
        if a[k] != b[k] {
            assert(vb.subrange(0, va.len() as int)[k as int] != va[k as int]);
            return false;
        }
        k = k + 1;
    }
    assert(vb.subrange(0, va.len() as int) =~= va);
    true
}

/// The path of the scratch entry numbered `k` under the directory `root`.
pub open spec fn scratch_path(root: Seq<char>, k: nat) -> Seq<char> {
    rendered(true, components(root).push(decimal(k)))
}

/// A normalized path is written back from its own components.
pub proof fn lemma_normalized_shape(s: Seq<char>)
    ensures
        is_absolute(normalized(s)) == is_absolute(s),
        components(normalized(s)) == components(s),
        normalized(s) == rendered(is_absolute(s), components(s)),
        all_normal(components(s)),
{
    lemma_normalize_idempotent(s);
    lemma_rendered_normal(is_absolute(s), components(s));
}

/// A path made absolute against an absolute directory is absolute.
pub proof fn lemma_absolute_shape(cwd: Seq<char>, s: Seq<char>)
    requires
        is_absolute(cwd),
    ensures
        is_absolute(absolute(cwd, s)),
        absolute(cwd, s) == rendered(true, components(absolute(cwd, s))),
        all_normal(components(absolute(cwd, s))),
{
    let x = if is_absolute(s) {
        s
    } else {
        cwd + seq!['/'] + s
    };
    assert(is_absolute(x)) by {
        if !is_absolute(s) {
            assert(x[0] == cwd[0]);
        }
    }
    lemma_normalized_shape(x);
}

/// The components of a scratch path: those of the root, then the number.
pub proof fn lemma_scratch_components(root: Seq<char>, k: nat)
    ensures
        is_absolute(scratch_path(root, k)),
        components(scratch_path(root, k)) == components(root).push(decimal(k)),
{
    lemma_normalize_idempotent(root);
    lemma_decimal_normal(k);
    let cs = components(root);
    assert(all_normal(cs.push(decimal(k)))) by {
        assert forall|i: int| 0 <= i < cs.push(decimal(k)).len() implies is_normal_component(
            #[trigger] cs.push(decimal(k))[i],
        ) by {
            if i < cs.len() {
                assert(cs.push(decimal(k))[i] == cs[i]);
            }
        }
    }
    lemma_rendered_normal(true, cs.push(decimal(k)));
}

/// Scratch paths with different numbers differ.
pub proof fn lemma_scratch_unique(root: Seq<char>, a: nat, b: nat)
    requires
        scratch_path(root, a) == scratch_path(root, b),
    ensures
        a == b,
{
    lemma_scratch_components(root, a);
    lemma_scratch_components(root, b);
    let ca = components(root).push(decimal(a));
    let cb = components(root).push(decimal(b));
    assert(ca.last() == cb.last());
    lemma_decimal_injective(a, b);
}

/// A scratch path lies outside every subtree that its root lies outside of.
pub proof fn lemma_scratch_disjoint(root: Seq<char>, k: nat, x: Seq<char>)
    requires
        is_absolute(root),
        disjoint(root, x),
    ensures
        disjoint(scratch_path(root, k), x),
{
    lemma_scratch_components(root, k);
    let r = components(root);
    let t = components(scratch_path(root, k));
    let c = components(x);
    if is_absolute(x) {
        if is_prefix(t, c) {
            assert(c.subrange(0, r.len() as int) =~= t.subrange(0, r.len() as int));
            assert(t.subrange(0, r.len() as int) =~= r);
        }
        if is_prefix(c, t) {
            if c.len() <= r.len() {
                assert(r.subrange(0, c.len() as int) =~= t.subrange(0, c.len() as int));
            } else {
                assert(c.len() == t.len());
                assert(c =~= t.subrange(0, c.len() as int));
                assert(c.subrange(0, r.len() as int) =~= r);
            }
        }
    }
}

} // verus!
