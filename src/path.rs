//! Lexical path handling on `/`-separated paths: splitting into components,
//! collapsing `.` and `..`, and computing one path relative to another.
use vstd::prelude::*;
use vstd::string::StringSliceAdditionalSpecFns;
use vstd::utf8::{decode_utf8, valid_utf8};

use crate::text::{chars_of, push_char, push_str, string_of};

verus! {

/// One component of a path.
#[derive(Debug, Clone)]
pub enum Component {
    /// The leading `/` of an absolute path.
    RootDir,
    /// A leading `.` of a relative path.
    CurDir,
    /// A `..` component.
    ParentDir,
    /// Any other name.
    Normal(String),
}

/// The mathematical value of a component.
pub enum Part {
    Root,
    Current,
    Parent,
    Name(Seq<char>),
}

impl View for Component {
    type V = Part;

    open spec fn view(&self) -> Part {
        match self {
            Component::RootDir => Part::Root,
            Component::CurDir => Part::Current,
            Component::ParentDir => Part::Parent,
            Component::Normal(s) => Part::Name(s@),
        }
    }
}

pub open spec fn parts_view(v: Seq<Component>) -> Seq<Part> {
    v.map_values(|c: Component| c@)
}

/// The components that one segment between separators contributes.
/// `first` holds when no separator comes before the segment, `by_sep` when a
/// separator ends it.
pub open spec fn classify(seg: Seq<char>, first: bool, by_sep: bool) -> Seq<Part> {
    if seg.len() == 0 {
        if first && by_sep {
            seq![Part::Root]
        } else {
            seq![]
        }
    } else if seg == seq!['.'] {
        if first {
            seq![Part::Current]
        } else {
            seq![]
        }
    } else if seg == seq!['.', '.'] {
        seq![Part::Parent]
    } else {
        seq![Part::Name(seg)]
    }
}

/// Left-to-right scan of a path: the components completed so far, the pending
/// segment, and whether a separator was seen.
pub open spec fn scan(p: Seq<char>) -> (Seq<Part>, Seq<char>, bool)
    decreases p.len(),
{
    if p.len() == 0 {
        (seq![], seq![], false)
    } else {
        let s = scan(p.drop_last());
        if p.last() == '/' {
            (s.0 + classify(s.1, !s.2, true), seq![], true)
        } else {
            (s.0, s.1.push(p.last()), s.2)
        }
    }
}

/// The components of a path: a leading `/` is the root, empty segments and
/// `.` segments vanish except for a leading `.` of a relative path.
pub open spec fn parts_of(p: Seq<char>) -> Seq<Part> {
    let s = scan(p);
    s.0 + classify(s.1, !s.2, false)
}

pub open spec fn part_text(p: Part) -> Seq<char> {
    match p {
        Part::Root => seq!['/'],
        Part::Current => seq!['.'],
        Part::Parent => seq!['.', '.'],
        Part::Name(s) => s,
    }
}

/// The path that pushing each component in turn onto an empty path gives.
pub open spec fn render(parts: Seq<Part>) -> Seq<char>
    decreases parts.len(),
{
    if parts.len() == 0 {
        seq![]
    } else {
        let acc = render(parts.drop_last());
        let t = part_text(parts.last());
        if parts.last() is Root || acc.len() == 0 {
            t
        } else if acc.last() == '/' {
            acc + t
        } else {
            acc + seq!['/'] + t
        }
    }
}

/// One step of lexical normalization: `.` vanishes, `..` removes the
/// component before it unless that is the root, another `..`, or nothing.
pub open spec fn normal_step(acc: Seq<Part>, p: Part) -> Seq<Part> {
    match p {
        Part::Current => acc,
        Part::Parent => {
            if acc.len() == 0 || acc.last() is Parent || acc.last() is Root {
                acc.push(Part::Parent)
            } else {
                acc.drop_last()
            }
        },
        _ => acc.push(p),
    }
}

/// Normalization of `parts` continued from `acc`.
pub open spec fn normal_from(acc: Seq<Part>, parts: Seq<Part>) -> Seq<Part>
    decreases parts.len(),
{
    if parts.len() == 0 {
        acc
    } else {
        normal_step(normal_from(acc, parts.drop_last()), parts.last())
    }
}

/// The lexically normal form of a sequence of components.
pub open spec fn normal_parts(parts: Seq<Part>) -> Seq<Part> {
    normal_from(seq![], parts)
}

/// One step of normalizing a path assumed absolute; `None` once a `..`
/// climbs above the root or the start.
pub open spec fn absolute_step(acc: Option<Seq<Part>>, p: Part) -> Option<Seq<Part>> {
    match acc {
        None => None,
        Some(a) => match p {
            Part::Current => Some(a),
            Part::Parent => {
                if a.len() == 0 || a.last() is Root {
                    None
                } else {
                    Some(a.drop_last())
                }
            },
            _ => Some(a.push(p)),
        },
    }
}

pub open spec fn absolute_parts(parts: Seq<Part>) -> Option<Seq<Part>>
    decreases parts.len(),
{
    if parts.len() == 0 {
        Some(seq![])
    } else {
        absolute_step(absolute_parts(parts.drop_last()), parts.last())
    }
}

pub open spec fn is_dot_part(p: Part) -> bool {
    p is Current || p is Parent
}

/// A name that a component can hold: not empty, no separator, not `.` or `..`.
pub open spec fn valid_name(s: Seq<char>) -> bool {
    &&& s.len() > 0
    &&& !s.contains('/')
    &&& s != seq!['.']
    &&& s != seq!['.', '.']
}

/// Components as the parser yields them: the root only first, valid names.
pub open spec fn well_formed(parts: Seq<Part>) -> bool {
    forall|i: int|
        0 <= i < parts.len() ==> match #[trigger] parts[i] {
            Part::Root => i == 0,
            Part::Name(s) => valid_name(s),
            _ => true,
        }
}

// ---------------------------------------------------------------------------
// Lemmas on the component model.

proof fn lemma_scan_append(s: Seq<char>, t: Seq<char>)
    requires
        !t.contains('/'),
    ensures
        scan(s + t) == (scan(s).0, scan(s).1 + t, scan(s).2),
    decreases t.len(),
{
    if t.len() == 0 {
        assert(s + t =~= s);
        assert(scan(s).1 + t =~= scan(s).1);
    } else {
        let t0 = t.drop_last();
        assert(!t0.contains('/')) by {
            if t0.contains('/') {
                let j = choose|j: int| 0 <= j < t0.len() && t0[j] == '/';
                assert(t[j] == '/');
            }
        }
        lemma_scan_append(s, t0);
        assert((s + t).drop_last() =~= s + t0);
        assert((s + t).last() == t.last());
        assert(t.last() != '/') by {
            assert(t[t.len() - 1] == t.last());
        }
        assert(scan(s).1 + t0.push(t.last()) =~= scan(s).1 + t);
        assert(t0.push(t.last()) =~= t);
    }
}

proof fn lemma_scan_first(p: Seq<char>)
    ensures
        !scan(p).2 ==> scan(p).0.len() == 0,
        !scan(p).1.contains('/'),
        well_formed(scan(p).0),
    decreases p.len(),
{
    if p.len() > 0 {
        lemma_scan_first(p.drop_last());
        let s = scan(p.drop_last());
        if p.last() == '/' {
            lemma_classify_well_formed(s.0, s.1, !s.2, true);
        } else {
            assert forall|j: int| 0 <= j < s.1.push(p.last()).len() implies s.1.push(
                p.last(),
            )[j] != '/' by {
                if j < s.1.len() {
                    assert(!s.1.contains('/'));
                    assert(s.1.push(p.last())[j] == s.1[j]);
                }
            }
        }
    }
}

proof fn lemma_classify_well_formed(acc: Seq<Part>, seg: Seq<char>, first: bool, by_sep: bool)
    requires
        well_formed(acc),
        !seg.contains('/'),
        first ==> acc.len() == 0,
    ensures
        well_formed(acc + classify(seg, first, by_sep)),
{
    let r = acc + classify(seg, first, by_sep);
    assert forall|i: int| 0 <= i < r.len() implies match #[trigger] r[i] {
        Part::Root => i == 0,
        Part::Name(s) => valid_name(s),
        _ => true,
    } by {
        if i < acc.len() {
            assert(r[i] == acc[i]);
        }
    }
}

/// Every path parses into well-formed components.
pub proof fn lemma_parts_well_formed(p: Seq<char>)
    ensures
        well_formed(parts_of(p)),
{
    lemma_scan_first(p);
    let s = scan(p);
    lemma_classify_well_formed(s.0, s.1, !s.2, false);
}

proof fn lemma_render_shape(parts: Seq<Part>)
    requires
        well_formed(parts),
        forall|i: int| 0 <= i < parts.len() ==> !(#[trigger] parts[i] is Current),
    ensures
        parts.len() > 0 ==> render(parts).len() > 0,
        parts.len() > 0 ==> (render(parts).last() == '/' <==> parts == seq![Part::Root]),
    decreases parts.len(),
{
    if parts.len() > 0 {
        let init = parts.drop_last();
        assert(well_formed(init)) by {
            assert forall|i: int| 0 <= i < init.len() implies match #[trigger] init[i] {
                Part::Root => i == 0,
                Part::Name(s) => valid_name(s),
                _ => true,
            } by {
                assert(init[i] == parts[i]);
            }
        }
        assert forall|i: int| 0 <= i < init.len() implies !(#[trigger] init[i] is Current) by {
            assert(init[i] == parts[i]);
        }
        lemma_render_shape(init);
        let q = parts.last();
        assert(q == parts[parts.len() - 1]);
        let t = part_text(q);
        if q is Root {
            assert(parts.len() - 1 == 0);
            assert(parts =~= seq![Part::Root]);
        } else {
            assert(t.len() > 0 && t.last() != '/') by {
                match q {
                    Part::Name(s) => {
                        assert(valid_name(s));
                        assert(s[s.len() - 1] != '/');
                    },
                    _ => {},
                }
            }
            assert(parts != seq![Part::Root]) by {
                if parts == seq![Part::Root] {
                    assert(parts[0] is Root);
                }
            }
        }
    }
}

/// Rendering components without `.` and parsing the result gives them back.
#[verifier::rlimit(40)]
#[verifier::spinoff_prover]
pub proof fn lemma_parse_render(parts: Seq<Part>)
    requires
        well_formed(parts),
        forall|i: int| 0 <= i < parts.len() ==> !(#[trigger] parts[i] is Current),
    ensures
        parts_of(render(parts)) == parts,
    decreases parts.len(),
{
    if parts.len() == 0 {
        assert(parts_of(seq![]) =~= seq![]);
    } else {
        let init = parts.drop_last();
        assert(well_formed(init)) by {
            assert forall|i: int| 0 <= i < init.len() implies match #[trigger] init[i] {
                Part::Root => i == 0,
                Part::Name(s) => valid_name(s),
                _ => true,
            } by {
                assert(init[i] == parts[i]);
            }
        }
        assert forall|i: int| 0 <= i < init.len() implies !(#[trigger] init[i] is Current) by {
            assert(init[i] == parts[i]);
        }
        lemma_parse_render(init);
        lemma_render_shape(init);
        let q = parts.last();
        assert(q == parts[parts.len() - 1]);
        let acc = render(init);
        let t = part_text(q);
        if q is Root {
            assert(parts.len() == 1);
            let r = seq!['/'];
            assert(r.drop_last() =~= Seq::<char>::empty());
            assert(scan(r) == (seq![Part::Root], Seq::<char>::empty(), true));
            assert(parts_of(r) =~= seq![Part::Root]);
            assert(parts =~= seq![Part::Root]);
        } else {
            assert(!t.contains('/') && classify(t, false, false) == seq![q]) by {
                match q {
                    Part::Name(s) => {
                        assert(valid_name(s));
                    },
                    _ => {
                        assert(q is Parent);
                        assert(t =~= seq!['.', '.']);
                        assert(t != seq!['.']) by {
                            assert(t.len() != seq!['.'].len());
                        }
                    },
                }
            }
            if acc.len() == 0 {
                assert(init.len() == 0);
                assert(render(parts) == t);
                lemma_scan_append(seq![], t);
                assert(Seq::<char>::empty() + t =~= t);
                assert(classify(t, true, false) == seq![q]) by {
                    match q {
                        Part::Name(s) => {},
                        _ => {
                            assert(t != seq!['.']) by {
                                assert(t.len() != seq!['.'].len());
                            }
                        },
                    }
                }
                assert(parts_of(t) =~= seq![q]);
                assert(parts =~= seq![q]);
            } else if acc.last() == '/' {
                assert(init == seq![Part::Root]);
                assert(acc =~= seq!['/']) by {
                    assert(init.drop_last() =~= Seq::<Part>::empty());
                }
                assert(render(parts) == acc + t);
                assert(scan(acc) == (seq![Part::Root], Seq::<char>::empty(), true)) by {
                    assert(acc.drop_last() =~= Seq::<char>::empty());
                }
                lemma_scan_append(acc, t);
                assert(Seq::<char>::empty() + t =~= t);
                assert(parts_of(render(parts)) =~= seq![Part::Root, q]);
                assert(parts =~= init.push(q));
            } else {
                let a1 = acc + seq!['/'];
                assert(render(parts) == a1 + t);
                let s = scan(acc);
                assert(a1.drop_last() =~= acc);
                assert(s.1.len() > 0) by {
                    assert(acc.drop_last().push(acc.last()) =~= acc);
                }
                assert(classify(s.1, !s.2, true) == classify(s.1, !s.2, false));
                assert(scan(a1) == (parts_of(acc), Seq::<char>::empty(), true));
                lemma_scan_append(a1, t);
                assert(Seq::<char>::empty() + t =~= t);
                assert(parts_of(render(parts)) =~= init + seq![q]);
                assert(parts =~= init + seq![q]);
            }
        }
    }
}

// ---------------------------------------------------------------------------
// Executable parsing and rendering.

fn is_dot(seg: &Vec<char>) -> (r: bool)
    ensures
        r == (seg@ == seq!['.']),
{
    if seg.len() == 1 && seg[0] == '.' {
        assert(seg@ =~= seq!['.']);
        true
    } else {
        false
    }
}

fn is_dot_dot(seg: &Vec<char>) -> (r: bool)
    ensures
        r == (seg@ == seq!['.', '.']),
{
    if seg.len() == 2 && seg[0] == '.' && seg[1] == '.' {
        assert(seg@ =~= seq!['.', '.']);
        true
    } else {
        false
    }
}

fn push_segment(parts: &mut Vec<Component>, seg: &Vec<char>, first: bool, by_sep: bool)
    ensures
        parts_view(final(parts)@) == parts_view(old(parts)@) + classify(seg@, first, by_sep),
{
    let ghost before = parts_view(parts@);
    if seg.len() == 0 {
        if first && by_sep {
            parts.push(Component::RootDir);
        }
    } else if is_dot(seg) {
        if first {
            parts.push(Component::CurDir);
        }
    } else if is_dot_dot(seg) {
        parts.push(Component::ParentDir);
    } else {
        parts.push(Component::Normal(string_of(seg)));
    }
    assert(parts_view(parts@) =~= before + classify(seg@, first, by_sep));
}

/// Splits a path into its components.
pub fn components(path: &str) -> (r: Vec<Component>)
    ensures
        parts_view(r@) == parts_of(path@),
{
    let chars = chars_of(path);
    let mut parts: Vec<Component> = Vec::new();
    let mut seg: Vec<char> = Vec::new();
    let mut seen = false;
    let mut i: usize = 0;
    while i < chars.len()
        invariant
            chars@ == path@,
            i <= chars@.len(),
            parts_view(parts@) == scan(path@.subrange(0, i as int)).0,
            seg@ == scan(path@.subrange(0, i as int)).1,
            seen == scan(path@.subrange(0, i as int)).2,
        decreases chars@.len() - i,
    {
        let c = chars[i];
        assert(path@.subrange(0, i + 1).drop_last() =~= path@.subrange(0, i as int));
        if c == '/' {
            push_segment(&mut parts, &seg, !seen, true);
            seg = Vec::new();
            seen = true;
        } else {
            seg.push(c);
        }
        i += 1;
    }
    assert(path@.subrange(0, chars@.len() as int) =~= path@);
    push_segment(&mut parts, &seg, !seen, false);
    parts
}

fn part_is_root(c: &Component) -> (r: bool)
    ensures
        r == (c@ is Root),
{
    match c {
        Component::RootDir => true,
        _ => false,
    }
}

fn part_is_parent(c: &Component) -> (r: bool)
    ensures
        r == (c@ is Parent),
{
    match c {
        Component::ParentDir => true,
        _ => false,
    }
}

fn component_text(c: &Component) -> (r: String)
    ensures
        r@ == part_text(c@),
{
    match c {
        Component::RootDir => {
            let mut s = String::new();
            push_char(&mut s, '/');
            assert(s@ =~= seq!['/']);
            s
        },
        Component::CurDir => {
            let mut s = String::new();
            push_char(&mut s, '.');
            assert(s@ =~= seq!['.']);
            s
        },
        Component::ParentDir => {
            let mut s = String::new();
            push_char(&mut s, '.');
            push_char(&mut s, '.');
            assert(s@ =~= seq!['.', '.']);
            s
        },
        Component::Normal(name) => name.clone(),
    }
}

/// Joins components back into a path.
pub fn render_components(parts: &Vec<Component>) -> (r: String)
    ensures
        r@ == render(parts_view(parts@)),
{
    let mut s = String::new();
    let mut i: usize = 0;
    while i < parts.len()
        invariant
            i <= parts@.len(),
            s@ == render(parts_view(parts@.subrange(0, i as int))),
        decreases parts@.len() - i,
    {
        let t = component_text(&parts[i]);
        let ghost pv = parts_view(parts@.subrange(0, i + 1));
        assert(pv.drop_last() =~= parts_view(parts@.subrange(0, i as int)));
        assert(pv.last() == parts@[i as int]@);
        if part_is_root(&parts[i]) || s.unicode_len() == 0 {
            s = t;
        } else {
            let n = s.unicode_len();
            if s.as_str().get_char(n - 1) != '/' {
                push_char(&mut s, '/');
            }
            push_str(&mut s, t.as_str());
        }
        i += 1;
    }
    assert(parts@.subrange(0, parts@.len() as int) =~= parts@);
    s
}


// ---------------------------------------------------------------------------
// Normal forms.

/// The shape of a lexically normal sequence of components: well formed, no
/// `.`, and a `..` only at the start, after the root, or after another `..`.
pub open spec fn is_normal(x: Seq<Part>) -> bool {
    &&& well_formed(x)
    &&& forall|i: int| 0 <= i < x.len() ==> !(#[trigger] x[i] is Current)
    &&& forall|i: int|
        0 <= i < x.len() && #[trigger] x[i] is Parent ==> i == 0 || x[i - 1] is Parent || x[i
            - 1] is Root
}

proof fn lemma_normal_prefix(x: Seq<Part>, k: int)
    requires
        is_normal(x),
        0 <= k <= x.len(),
    ensures
        is_normal(x.subrange(0, k)),
{
    let y = x.subrange(0, k);
    assert forall|i: int| 0 <= i < y.len() implies match #[trigger] y[i] {
        Part::Root => i == 0,
        Part::Name(s) => valid_name(s),
        _ => true,
    } by {
        assert(y[i] == x[i]);
    }
    assert forall|i: int| 0 <= i < y.len() implies !(#[trigger] y[i] is Current) by {
        assert(y[i] == x[i]);
    }
    assert forall|i: int| 0 <= i < y.len() && #[trigger] y[i] is Parent implies i == 0 || y[i
        - 1] is Parent || y[i - 1] is Root by {
        assert(y[i] == x[i]);
        if i > 0 {
            assert(y[i - 1] == x[i - 1]);
        }
    }
}

proof fn lemma_normal_push(x: Seq<Part>, p: Part)
    requires
        is_normal(x),
        !(p is Current),
        p is Root ==> x.len() == 0,
        p matches Part::Name(s) ==> valid_name(s),
        p is Parent ==> x.len() == 0 || x.last() is Parent || x.last() is Root,
    ensures
        is_normal(x.push(p)),
{
    let y = x.push(p);
    assert forall|i: int| 0 <= i < y.len() implies match #[trigger] y[i] {
        Part::Root => i == 0,
        Part::Name(s) => valid_name(s),
        _ => true,
    } by {
        if i < x.len() {
            assert(y[i] == x[i]);
        }
    }
    assert forall|i: int| 0 <= i < y.len() implies !(#[trigger] y[i] is Current) by {
        if i < x.len() {
            assert(y[i] == x[i]);
        }
    }
    assert forall|i: int| 0 <= i < y.len() && #[trigger] y[i] is Parent implies i == 0 || y[i
        - 1] is Parent || y[i - 1] is Root by {
        if i < x.len() {
            assert(y[i] == x[i]);
            if i > 0 {
                assert(y[i - 1] == x[i - 1]);
            }
        } else if i > 0 {
            assert(y[i - 1] == x.last());
        }
    }
}

/// Normalizing well-formed components yields a normal form.
pub proof fn lemma_normal_parts_normal(parts: Seq<Part>)
    requires
        well_formed(parts),
    ensures
        is_normal(normal_parts(parts)),
    decreases parts.len(),
{
    if parts.len() > 0 {
        let init = parts.drop_last();
        assert(well_formed(init)) by {
            assert forall|i: int| 0 <= i < init.len() implies match #[trigger] init[i] {
                Part::Root => i == 0,
                Part::Name(s) => valid_name(s),
                _ => true,
            } by {
                assert(init[i] == parts[i]);
            }
        }
        lemma_normal_parts_normal(init);
        let acc = normal_parts(init);
        let q = parts.last();
        assert(q == parts[parts.len() - 1]);
        match q {
            Part::Current => {},
            Part::Parent => {
                if acc.len() == 0 || acc.last() is Parent || acc.last() is Root {
                    lemma_normal_push(acc, q);
                } else {
                    lemma_normal_prefix(acc, acc.len() - 1);
                    assert(acc.drop_last() =~= acc.subrange(0, acc.len() - 1));
                }
            },
            Part::Root => {
                assert(parts.len() - 1 == 0);
                assert(acc =~= Seq::<Part>::empty());
                lemma_normal_push(acc, q);
            },
            Part::Name(s) => {
                lemma_normal_push(acc, q);
            },
        }
    }
}

/// A normal form is left as it is by normalization.
pub proof fn lemma_normal_idempotent(x: Seq<Part>)
    requires
        is_normal(x),
    ensures
        normal_parts(x) == x,
    decreases x.len(),
{
    if x.len() > 0 {
        let init = x.drop_last();
        lemma_normal_prefix(x, x.len() - 1);
        assert(init =~= x.subrange(0, x.len() - 1));
        lemma_normal_idempotent(init);
        let q = x.last();
        assert(q == x[x.len() - 1]);
        if q is Parent {
            if x.len() > 1 {
                assert(init.last() == x[x.len() - 2]);
            }
        }
        if q is Root {
            assert(x.len() - 1 == 0);
        }
        assert(init.push(q) =~= x);
    }
}

proof fn lemma_normal_from_concat(acc: Seq<Part>, a: Seq<Part>, b: Seq<Part>)
    ensures
        normal_from(acc, a + b) == normal_from(normal_from(acc, a), b),
    decreases b.len(),
{
    if b.len() == 0 {
        assert(a + b =~= a);
    } else {
        lemma_normal_from_concat(acc, a, b.drop_last());
        assert((a + b).drop_last() =~= a + b.drop_last());
        assert((a + b).last() == b.last());
    }
}

/// Components as a path's parser yields them have no `.` once normalized.
proof fn lemma_absolute_shape(parts: Seq<Part>)
    requires
        well_formed(parts),
    ensures
        absolute_parts(parts) matches Some(a) ==> well_formed(a) && forall|i: int|
            0 <= i < a.len() ==> !is_dot_part(#[trigger] a[i]),
    decreases parts.len(),
{
    if parts.len() > 0 {
        let init = parts.drop_last();
        assert(well_formed(init)) by {
            assert forall|i: int| 0 <= i < init.len() implies match #[trigger] init[i] {
                Part::Root => i == 0,
                Part::Name(s) => valid_name(s),
                _ => true,
            } by {
                assert(init[i] == parts[i]);
            }
        }
        lemma_absolute_shape(init);
        let q = parts.last();
        assert(q == parts[parts.len() - 1]);
        if let Some(a) = absolute_parts(init) {
            if let Some(r) = absolute_parts(parts) {
                if q is Parent {
                    assert forall|i: int| 0 <= i < r.len() implies match #[trigger] r[i] {
                        Part::Root => i == 0,
                        Part::Name(s) => valid_name(s),
                        _ => true,
                    } by {
                        assert(r[i] == a[i]);
                    }
                    assert forall|i: int| 0 <= i < r.len() implies !is_dot_part(#[trigger] r[i]) by {
                        assert(r[i] == a[i]);
                    }
                } else if !(q is Current) {
                    if q is Root {
                        assert(parts.len() - 1 == 0);
                        assert(a =~= Seq::<Part>::empty());
                    }
                    assert forall|i: int| 0 <= i < r.len() implies match #[trigger] r[i] {
                        Part::Root => i == 0,
                        Part::Name(s) => valid_name(s),
                        _ => true,
                    } by {
                        if i < a.len() {
                            assert(r[i] == a[i]);
                        }
                    }
                    assert forall|i: int| 0 <= i < r.len() implies !is_dot_part(#[trigger] r[i]) by {
                        if i < a.len() {
                            assert(r[i] == a[i]);
                        }
                    }
                }
            }
        }
    }
}

/// The error of a path operation.
#[derive(Debug, Clone, Copy, PartialEq, Eq)]
pub enum ErrorKind {
    /// A `..` climbs above the start of the path.
    InvalidInput,
    /// No relative path leads from the base to the path.
    NotRelative,
}

#[derive(Debug, Clone)]
pub struct PathError {
    pub kind: ErrorKind,
    pub message: String,
}

impl PathError {
    pub fn kind(&self) -> (r: ErrorKind)
        ensures
            r == self.kind,
    {
        self.kind
    }

    pub fn message(&self) -> (r: &str)
        ensures
            r@ == self.message@,
    {
        self.message.as_str()
    }
}

fn copy_component(c: &Component) -> (r: Component)
    ensures
        r@ == c@,
{
    match c {
        Component::RootDir => Component::RootDir,
        Component::CurDir => Component::CurDir,
        Component::ParentDir => Component::ParentDir,
        Component::Normal(s) => Component::Normal(s.clone()),
    }
}

fn same_component(a: &Component, b: &Component) -> (r: bool)
    ensures
        r == (a@ == b@),
{
    match (a, b) {
        (Component::RootDir, Component::RootDir) => true,
        (Component::CurDir, Component::CurDir) => true,
        (Component::ParentDir, Component::ParentDir) => true,
        (Component::Normal(x), Component::Normal(y)) => x.eq(y),
        _ => false,
    }
}

/// Lexical normalization of a sequence of components.
pub fn normal_components(parts: &Vec<Component>) -> (r: Vec<Component>)
    ensures
        parts_view(r@) == normal_parts(parts_view(parts@)),
{
    let mut out: Vec<Component> = Vec::new();
    let mut i: usize = 0;
    while i < parts.len()
        invariant
            i <= parts@.len(),
            parts_view(out@) == normal_parts(parts_view(parts@.subrange(0, i as int))),
        decreases parts@.len() - i,
    {
        let ghost pv = parts_view(parts@.subrange(0, i + 1));
        assert(pv.drop_last() =~= parts_view(parts@.subrange(0, i as int)));
        assert(pv.last() == parts@[i as int]@);
        let ghost acc = parts_view(out@);
        match &parts[i] {
            Component::CurDir => {},
            Component::ParentDir => {
                let n = out.len();
                if n == 0 || part_is_parent(&out[n - 1]) || part_is_root(&out[n - 1]) {
                    out.push(Component::ParentDir);
                    assert(parts_view(out@) =~= acc.push(Part::Parent));
                } else {
                    assert(acc.last() == out@[n - 1]@);
                    out.pop();
                    assert(parts_view(out@) =~= acc.drop_last());
                }
            },
            c => {
                out.push(copy_component(c));
                assert(parts_view(out@) =~= acc.push(c@));
            },
        }
        i += 1;
    }
    assert(parts@.subrange(0, parts@.len() as int) =~= parts@);
    out
}

/// Normalizes a path, removing `.` components and the `..` components that
/// follow a name; leading `..` and `..` just after the root are kept.
pub fn normalized(path: &str) -> (r: String)
    ensures
        r@ == render(normal_parts(parts_of(path@))),
        parts_of(r@) == normal_parts(parts_of(path@)),
{
    let parts = components(path);
    let norm = normal_components(&parts);
    proof {
        lemma_parts_well_formed(path@);
        lemma_normal_parts_normal(parts_of(path@));
        lemma_parse_render(normal_parts(parts_of(path@)));
    }
    render_components(&norm)
}

pub open spec fn has_dot_parts(path: Seq<char>) -> bool {
    exists|i: int| 0 <= i < parts_of(path).len() && is_dot_part(#[trigger] parts_of(path)[i])
}

proof fn lemma_plain_is_normal(parts: Seq<Part>)
    requires
        well_formed(parts),
        forall|i: int| 0 <= i < parts.len() ==> !is_dot_part(#[trigger] parts[i]),
    ensures
        normal_parts(parts) == parts,
{
    assert forall|i: int| 0 <= i < parts.len() && #[trigger] parts[i] is Parent implies i == 0
        || parts[i - 1] is Parent || parts[i - 1] is Root by {
        assert(!is_dot_part(parts[i]));
    }
    assert forall|i: int| 0 <= i < parts.len() implies !(#[trigger] parts[i] is Current) by {
        assert(!is_dot_part(parts[i]));
    }
    lemma_normal_idempotent(parts);
}

fn has_dot_components(parts: &Vec<Component>) -> (r: bool)
    ensures
        r == exists|i: int| 0 <= i < parts@.len() && is_dot_part(#[trigger] parts@[i]@),
{
    let mut i: usize = 0;
    while i < parts.len()
        invariant
            i <= parts@.len(),
            forall|j: int| 0 <= j < i ==> !is_dot_part(#[trigger] parts@[j]@),
        decreases parts@.len() - i,
    {
        match &parts[i] {
            Component::CurDir => {
                assert(is_dot_part(parts@[i as int]@));
                return true;
            },
            Component::ParentDir => {
                assert(is_dot_part(parts@[i as int]@));
                return true;
            },
            _ => {},
        }
        i += 1;
    }
    false
}

/// Normalizes a path, removing `.` and inner `..` components; a path that has
/// neither is returned as it is.
pub fn normalize_path(path: &str) -> (r: String)
    ensures
        r@ == if has_dot_parts(path@) {
            render(normal_parts(parts_of(path@)))
        } else {
            path@
        },
        parts_of(r@) == normal_parts(parts_of(path@)),
{
    let parts = components(path);
    proof {
        lemma_parts_well_formed(path@);
    }
    if has_dot_components(&parts) {
        assert(has_dot_parts(path@)) by {
            let i = choose|i: int| 0 <= i < parts@.len() && is_dot_part(#[trigger] parts@[i]@);
            assert(parts_of(path@)[i] == parts@[i]@);
        }
        normalized(path)
    } else {
        assert(!has_dot_parts(path@)) by {
            assert forall|i: int| 0 <= i < parts_of(path@).len() implies !is_dot_part(
                #[trigger] parts_of(path@)[i],
            ) by {
                assert(parts_of(path@)[i] == parts@[i]@);
            }
        }
        proof {
            assert forall|i: int| 0 <= i < parts_of(path@).len() implies !is_dot_part(
                #[trigger] parts_of(path@)[i],
            ) by {
                assert(parts_of(path@)[i] == parts@[i]@);
            }
            lemma_plain_is_normal(parts_of(path@));
        }
        path.to_owned()
    }
}

/// Normalizes an owned path; see [`normalize_path`].
pub fn normalize_path_buf(path: String) -> (r: String)
    ensures
        r@ == if has_dot_parts(path@) {
            render(normal_parts(parts_of(path@)))
        } else {
            path@
        },
        parts_of(r@) == normal_parts(parts_of(path@)),
{
    normalize_path(path.as_str())
}

/// Normalizes a path that is assumed absolute, failing where a `..` climbs
/// above the root (or above the start of a relative path).
pub fn normalize_absolute_path(path: &str) -> (r: Result<String, PathError>)
    ensures
        r is Ok <==> absolute_parts(parts_of(path@)) is Some,
        r matches Ok(s) ==> s@ == render(absolute_parts(parts_of(path@))->0),
        r matches Ok(s) ==> parts_of(s@) == absolute_parts(parts_of(path@))->0,
        r matches Ok(s) ==> forall|i: int|
            0 <= i < parts_of(s@).len() ==> !is_dot_part(#[trigger] parts_of(s@)[i]),
        r matches Err(e) ==> e.kind == ErrorKind::InvalidInput,
{
    let parts = components(path);
    let mut out: Vec<Component> = Vec::new();
    let mut i: usize = 0;
    while i < parts.len()
        invariant
            i <= parts@.len(),
            parts_view(parts@) == parts_of(path@),
            absolute_parts(parts_view(parts@.subrange(0, i as int))) == Some(parts_view(out@)),
        decreases parts@.len() - i,
    {
        let ghost pv = parts_view(parts@.subrange(0, i + 1));
        assert(pv.drop_last() =~= parts_view(parts@.subrange(0, i as int)));
        assert(pv.last() == parts@[i as int]@);
        let ghost acc = parts_view(out@);
        match &parts[i] {
            Component::CurDir => {},
            Component::ParentDir => {
                let n = out.len();
                if n == 0 || part_is_root(&out[n - 1]) {
                    proof {
                        assert(parts_view(parts@).subrange(0, i + 1) =~= pv);
                        lemma_absolute_none_stays(parts_view(parts@), i as int + 1);
                    }
                    assert(parts@.subrange(0, parts@.len() as int) =~= parts@);
                    let mut message = String::new();
                    push_str(
                        &mut message,
                        "cannot normalize a relative path beyond the base directory: ",
                    );
                    push_str(&mut message, path);
                    return Err(PathError { kind: ErrorKind::InvalidInput, message });
                } else {
                    assert(acc.last() == out@[n - 1]@);
                    out.pop();
                    assert(parts_view(out@) =~= acc.drop_last());
                }
            },
            c => {
                out.push(copy_component(c));
                assert(parts_view(out@) =~= acc.push(c@));
            },
        }
        i += 1;
    }
    assert(parts@.subrange(0, parts@.len() as int) =~= parts@);
    proof {
        lemma_parts_well_formed(path@);
        lemma_absolute_shape(parts_of(path@));
        let a = parts_view(out@);
        assert forall|i: int| 0 <= i < a.len() implies !(#[trigger] a[i] is Current) by {
            assert(!is_dot_part(a[i]));
        }
        lemma_parse_render(a);
    }
    Ok(render_components(&out))
}

proof fn lemma_absolute_none_stays(parts: Seq<Part>, k: int)
    requires
        0 <= k <= parts.len(),
        absolute_parts(parts.subrange(0, k)) is None,
    ensures
        absolute_parts(parts) is None,
    decreases parts.len() - k,
{
    if k < parts.len() {
        assert(parts.subrange(0, k + 1).drop_last() =~= parts.subrange(0, k));
        lemma_absolute_none_stays(parts, k + 1);
    } else {
        assert(parts.subrange(0, k) =~= parts);
    }
}


// ---------------------------------------------------------------------------
// Relative paths.

/// The shortest ancestor of a path: the root of an absolute path, else empty.
pub open spec fn min_ancestor(base: Seq<Part>) -> nat {
    if base.len() > 0 && base[0] is Root {
        1
    } else {
        0
    }
}

pub open spec fn shares_prefix(path: Seq<Part>, base: Seq<Part>, k: nat) -> bool {
    &&& k <= path.len()
    &&& k <= base.len()
    &&& path.subrange(0, k as int) == base.subrange(0, k as int)
}

/// The length of the longest ancestor of `base`, at most `k` components long,
/// of which `path` is a descendant.
pub open spec fn ancestor_from(path: Seq<Part>, base: Seq<Part>, k: nat) -> Option<nat>
    decreases k,
{
    if k < min_ancestor(base) {
        None
    } else if shares_prefix(path, base, k) {
        Some(k)
    } else if k == 0 {
        None
    } else {
        ancestor_from(path, base, (k - 1) as nat)
    }
}

pub open spec fn ups(n: nat) -> Seq<Part> {
    Seq::new(n, |i: int| Part::Parent)
}

/// Joining a path onto another: an absolute one replaces it.
pub open spec fn join_parts(base: Seq<Part>, rel: Seq<Part>) -> Seq<Part> {
    if rel.len() > 0 && rel[0] is Root {
        rel
    } else {
        base + rel
    }
}

/// The components of the path that leads from `base` to `path`, both
/// normalized: up to their longest shared ancestor, then down.
pub open spec fn relative_parts(path: Seq<Part>, base: Seq<Part>) -> Option<Seq<Part>> {
    match ancestor_from(path, base, base.len()) {
        None => None,
        Some(k) => Some(
            join_parts(ups((base.len() - k) as nat), path.subrange(k as int, path.len() as int)),
        ),
    }
}

proof fn lemma_ancestor_bounds(path: Seq<Part>, base: Seq<Part>, k: nat)
    requires
        k <= base.len(),
    ensures
        ancestor_from(path, base, k) matches Some(j) ==> min_ancestor(base) <= j <= k
            && shares_prefix(path, base, j),
    decreases k,
{
    if k >= min_ancestor(base) && !shares_prefix(path, base, k) && k > 0 {
        lemma_ancestor_bounds(path, base, (k - 1) as nat);
    }
}

proof fn lemma_relative_shape(path: Seq<Part>, base: Seq<Part>)
    requires
        is_normal(path),
        relative_parts(path, base) is Some,
    ensures
        well_formed(relative_parts(path, base)->0),
        forall|i: int|
            0 <= i < relative_parts(path, base)->0.len() ==> !(#[trigger] relative_parts(
                path,
                base,
            )->0[i] is Current),
{
    lemma_ancestor_bounds(path, base, base.len());
    let k = ancestor_from(path, base, base.len())->0;
    let tail = path.subrange(k as int, path.len() as int);
    let u = ups((base.len() - k) as nat);
    let r = relative_parts(path, base)->0;
    if tail.len() > 0 && tail[0] is Root {
        assert(r == tail);
        assert forall|i: int| 0 <= i < r.len() implies match #[trigger] r[i] {
            Part::Root => i == 0,
            Part::Name(s) => valid_name(s),
            _ => true,
        } by {
            assert(r[i] == path[k + i]);
            assert(tail[0] == path[k as int]);
        }
        assert forall|i: int| 0 <= i < r.len() implies !(#[trigger] r[i] is Current) by {
            assert(r[i] == path[k + i]);
        }
    } else {
        assert(r == u + tail);
        assert forall|i: int| 0 <= i < r.len() implies match #[trigger] r[i] {
            Part::Root => i == 0,
            Part::Name(s) => valid_name(s),
            _ => true,
        } by {
            if i >= u.len() {
                assert(r[i] == tail[i - u.len()]);
                assert(tail[i - u.len()] == path[k + i - u.len()]);
                if path[k + i - u.len()] is Root {
                    assert(k + i - u.len() == 0);
                    assert(tail[0] == path[k as int]);
                }
            } else {
                assert(r[i] == u[i]);
            }
        }
        assert forall|i: int| 0 <= i < r.len() implies !(#[trigger] r[i] is Current) by {
            if i >= u.len() {
                assert(r[i] == tail[i - u.len()]);
                assert(tail[i - u.len()] == path[k + i - u.len()]);
            } else {
                assert(r[i] == u[i]);
            }
        }
    }
}

proof fn lemma_pop_names(y: Seq<Part>, z: Seq<Part>)
    requires
        forall|i: int| 0 <= i < z.len() ==> #[trigger] z[i] is Name,
    ensures
        normal_from(y + z, ups(z.len())) == y,
    decreases z.len(),
{
    if z.len() == 0 {
        assert(y + z =~= y);
    } else {
        let y1 = y.push(z[0]);
        let z1 = z.subrange(1, z.len() as int);
        assert forall|i: int| 0 <= i < z1.len() implies #[trigger] z1[i] is Name by {
            assert(z1[i] == z[i + 1]);
        }
        lemma_pop_names(y1, z1);
        assert(y1 + z1 =~= y + z);
        assert(ups(z.len()).drop_last() =~= ups(z1.len()));
        assert(ups(z.len()).last() is Parent);
        assert(y1.last() is Name);
        assert(y1.drop_last() =~= y);
    }
}

/// Joining a base with the path that [`relative_to`] computes from it, then
/// normalizing, gives the normalized target path; this holds whenever the
/// base has no `..` left once normalized.
#[verifier::rlimit(40)]
#[verifier::spinoff_prover]
pub proof fn lemma_relative_to_joins_back(path: Seq<char>, base: Seq<char>)
    requires
        relative_parts(normal_parts(parts_of(path)), normal_parts(parts_of(base))) is Some,
        forall|i: int|
            0 <= i < normal_parts(parts_of(base)).len() ==> !(#[trigger] normal_parts(
                parts_of(base),
            )[i] is Parent),
    ensures
        normal_parts(
            join_parts(
                parts_of(base),
                parts_of(
                    render(
                        relative_parts(normal_parts(parts_of(path)), normal_parts(parts_of(base)))->0,
                    ),
                ),
            ),
        ) == normal_parts(parts_of(path)),
{
    let pc = normal_parts(parts_of(path));
    let bc = normal_parts(parts_of(base));
    lemma_parts_well_formed(path);
    lemma_parts_well_formed(base);
    lemma_normal_parts_normal(parts_of(path));
    lemma_normal_parts_normal(parts_of(base));
    lemma_relative_shape(pc, bc);
    let rel = relative_parts(pc, bc)->0;
    lemma_parse_render(rel);
    lemma_ancestor_bounds(pc, bc, bc.len());
    let k = ancestor_from(pc, bc, bc.len())->0;
    let tail = pc.subrange(k as int, pc.len() as int);
    let m = (bc.len() - k) as nat;
    if tail.len() > 0 && tail[0] is Root {
        assert(rel == tail);
        assert(tail[0] == pc[k as int]);
        assert(k == 0);
        assert(tail =~= pc);
        lemma_normal_idempotent(pc);
    } else {
        assert(rel == ups(m) + tail);
        assert(rel.len() > 0 && rel[0] is Root ==> false) by {
            if rel.len() > 0 && m == 0 {
                assert(rel[0] == tail[0]);
            }
        }
        let head = pc.subrange(0, k as int);
        let z = bc.subrange(k as int, bc.len() as int);
        assert(bc =~= head + z) by {
            assert(bc.subrange(0, k as int) == head);
        }
        assert forall|i: int| 0 <= i < z.len() implies #[trigger] z[i] is Name by {
            assert(z[i] == bc[k + i]);
            if bc[k + i] is Root {
                assert(k + i == 0);
            }
            assert(!(bc[k + i] is Parent));
            assert(!(bc[k + i] is Current));
        }
        lemma_normal_from_concat(seq![], parts_of(base), rel);
        lemma_normal_from_concat(bc, ups(m), tail);
        lemma_pop_names(head, z);
        lemma_normal_prefix(pc, k as int);
        lemma_normal_idempotent(head);
        lemma_normal_from_concat(seq![], head, tail);
        assert(head + tail =~= pc);
        lemma_normal_idempotent(pc);
    }
}

fn is_root_at(v: &Vec<Component>, i: usize) -> (r: bool)
    requires
        i < v@.len(),
    ensures
        r == (v@[i as int]@ is Root),
{
    part_is_root(&v[i])
}

fn shares_prefix_exec(path: &Vec<Component>, base: &Vec<Component>, k: usize) -> (r: bool)
    ensures
        r == shares_prefix(parts_view(path@), parts_view(base@), k as nat),
{
    if k > path.len() || k > base.len() {
        return false;
    }
    let mut i: usize = 0;
    while i < k
        invariant
            k <= path@.len(),
            k <= base@.len(),
            i <= k,
            forall|j: int| 0 <= j < i ==> path@[j]@ == base@[j]@,
        decreases k - i,
    {
        if !same_component(&path[i], &base[i]) {
            assert(parts_view(path@).subrange(0, k as int)[i as int] != parts_view(
                base@,
            ).subrange(0, k as int)[i as int]);
            return false;
        }
        i += 1;
    }
    assert(parts_view(path@).subrange(0, k as int) =~= parts_view(base@).subrange(0, k as int));
    true
}

/// Computes the path that leads from `base` to `path`, both normalized first:
/// `..` for each component of `base` below their longest shared ancestor,
/// then the rest of `path`.
#[verifier::rlimit(40)]
#[verifier::spinoff_prover]
pub fn relative_to(path: &str, base: &str) -> (r: Result<String, PathError>)
    ensures
        r is Ok <==> relative_parts(
            normal_parts(parts_of(path@)),
            normal_parts(parts_of(base@)),
        ) is Some,
        r matches Ok(s) ==> s@ == render(
            relative_parts(normal_parts(parts_of(path@)), normal_parts(parts_of(base@)))->0,
        ),
        r matches Ok(s) ==> parts_of(s@) == relative_parts(
            normal_parts(parts_of(path@)),
            normal_parts(parts_of(base@)),
        )->0,
        r matches Err(e) ==> e.kind == ErrorKind::NotRelative,
{
    let pcs = components(path);
    let pc = normal_components(&pcs);
    let bcs = components(base);
    let bc = normal_components(&bcs);
    let ghost pv = parts_view(pc@);
    let ghost bv = parts_view(bc@);
    assert(pv == normal_parts(parts_of(path@)));
    assert(bv == normal_parts(parts_of(base@)));
    let min: usize = if bc.len() > 0 && is_root_at(&bc, 0) {
        1
    } else {
        0
    };
    let mut k: usize = bc.len();
    let mut found = false;
    while !found
        invariant
            pv == parts_view(pc@),
            bv == parts_view(bc@),
            pv == normal_parts(parts_of(path@)),
            bv == normal_parts(parts_of(base@)),
            min as nat == min_ancestor(bv),
            k <= bc@.len(),
            ancestor_from(pv, bv, bv.len()) == ancestor_from(pv, bv, k as nat),
            found ==> ancestor_from(pv, bv, k as nat) == Some(k as nat),
        decreases k + (if found { 0int } else { 1int }),
    {
        if k < min {
            let mut message = String::new();
            push_str(&mut message, "no relative path between ");
            push_str(&mut message, path);
            push_str(&mut message, " and ");
            push_str(&mut message, base);
            assert(ancestor_from(pv, bv, k as nat) is None);
            return Err(PathError { kind: ErrorKind::NotRelative, message });
        }
        if shares_prefix_exec(&pc, &bc, k) {
            found = true;
        } else if k == 0 {
            let mut message = String::new();
            push_str(&mut message, "no relative path between ");
            push_str(&mut message, path);
            push_str(&mut message, " and ");
            push_str(&mut message, base);
            assert(ancestor_from(pv, bv, k as nat) is None);
            return Err(PathError { kind: ErrorKind::NotRelative, message });
        } else {
            k -= 1;
        }
    }
    proof {
        lemma_ancestor_bounds(pv, bv, bv.len());
    }
    let mut out: Vec<Component> = Vec::new();
    let tail_root = k < pc.len() && is_root_at(&pc, k);
    if !tail_root {
        let mut j: usize = 0;
        while j < bc.len() - k
            invariant
                k <= bc@.len(),
                j <= bc@.len() - k,
                parts_view(out@) == ups(j as nat),
            decreases bc@.len() - k - j,
        {
            let ghost before = parts_view(out@);
            out.push(Component::ParentDir);
            j += 1;
            assert(parts_view(out@) =~= before.push(Part::Parent));
            assert(before.push(Part::Parent) =~= ups(j as nat));
        }
    }
    let ghost head = parts_view(out@);
    let mut i: usize = k;
    while i < pc.len()
        invariant
            k <= i <= pc@.len(),
            parts_view(out@) == head + pv.subrange(k as int, i as int),
            pv == parts_view(pc@),
        decreases pc@.len() - i,
    {
        let ghost before = parts_view(out@);
        let c = copy_component(&pc[i]);
        out.push(c);
        i += 1;
        assert(parts_view(out@) =~= before.push(c@));
        assert(pv[i - 1] == c@);
        assert(before.push(c@) =~= head + pv.subrange(k as int, i as int));
    }
    proof {
        let tail = pv.subrange(k as int, pv.len() as int);
        assert(pv.subrange(k as int, pc@.len() as int) == tail);
        if tail_root {
            assert(head =~= Seq::<Part>::empty());
            assert(tail[0] == pv[k as int]);
            assert(parts_view(out@) =~= tail);
        }
        assert(parts_view(out@) == relative_parts(pv, bv)->0);
        lemma_parts_well_formed(path@);
        lemma_normal_parts_normal(parts_of(path@));
        lemma_relative_shape(pv, bv);
        lemma_parse_render(parts_view(out@));
    }
    Ok(render_components(&out))
}


// ---------------------------------------------------------------------------
// URLs, display and escaping.

pub open spec fn hex_value(b: u8) -> Option<u8> {
    if 0x30 <= b <= 0x39 {
        Some((b - 0x30) as u8)
    } else if 0x61 <= b <= 0x66 {
        Some((b - 0x61 + 10) as u8)
    } else if 0x41 <= b <= 0x46 {
        Some((b - 0x41 + 10) as u8)
    } else {
        None
    }
}

/// Percent-decoding of bytes: each `%` followed by two hexadecimal digits
/// stands for the byte they spell; every other byte stands for itself.
pub open spec fn percent_decoded(b: Seq<u8>) -> Seq<u8>
    decreases b.len(),
{
    if b.len() == 0 {
        seq![]
    } else if b[0] == 0x25 && b.len() >= 3 && hex_value(b[1]) is Some && hex_value(b[2]) is Some {
        seq![(hex_value(b[1])->0 * 16 + hex_value(b[2])->0) as u8] + percent_decoded(
            b.subrange(3, b.len() as int),
        )
    } else {
        seq![b[0]] + percent_decoded(b.subrange(1, b.len() as int))
    }
}

/// Relies on `percent_encoding::percent_decode_str` followed by
/// `PercentDecode::decode_utf8`: the percent-decoded bytes, when they are UTF-8.
#[verifier::external_body]
fn percent_decode_utf8(s: &str) -> (r: Option<String>)
    ensures
        r is Some <==> valid_utf8(percent_decoded(s.spec_bytes())),
        r matches Some(t) ==> t@ == decode_utf8(percent_decoded(s.spec_bytes())),
{
    percent_encoding::percent_decode_str(s).decode_utf8().ok().map(|c| c.into_owned())
}

/// Normalizes the path part of a URL for use as a file path: it is
/// percent-decoded, and kept as it is where the decoded bytes are not UTF-8.
pub fn normalize_url_path(path: &str) -> (r: String)
    ensures
        valid_utf8(percent_decoded(path.spec_bytes())) ==> r@ == decode_utf8(
            percent_decoded(path.spec_bytes()),
        ),
        !valid_utf8(percent_decoded(path.spec_bytes())) ==> r@ == path@,
{
    match percent_decode_utf8(path) {
        Some(decoded) => decoded,
        None => path.to_owned(),
    }
}

/// A path with each `/` turned into `\`.
pub open spec fn backslashed(s: Seq<char>) -> Seq<char> {
    s.map_values(|c: char| if c == '/' {
        '\\'
    } else {
        c
    })
}

/// The Windows form of a URL path: its leading `/` dropped, where it has one,
/// and each `/` turned into `\`.
pub open spec fn windows_url_path(p: Seq<char>) -> Seq<char> {
    backslashed(
        if p.len() > 0 && p[0] == '/' {
            p.drop_first()
        } else {
            p
        },
    )
}

/// Normalizes the path part of a URL for use as a file path on the platform
/// named by `windows`: it is percent-decoded (kept as it is where the decoded
/// bytes are not UTF-8), and on Windows also turned into a Windows path, e.g.
/// `/C:/Users/ferris/wheel.tar.gz` into `C:\Users\ferris\wheel.tar.gz`.
pub fn normalize_url_path_on(path: &str, windows: bool) -> (r: String)
    ensures
        ({
            let decoded = if valid_utf8(percent_decoded(path.spec_bytes())) {
                decode_utf8(percent_decoded(path.spec_bytes()))
            } else {
                path@
            };
            r@ == if windows {
                windows_url_path(decoded)
            } else {
                decoded
            }
        }),
{
    let decoded = normalize_url_path(path);
    if !windows {
        return decoded;
    }
    let chars = chars_of(decoded.as_str());
    let start: usize = if chars.len() > 0 && chars[0] == '/' {
        1
    } else {
        0
    };
    let ghost src = if decoded@.len() > 0 && decoded@[0] == '/' {
        decoded@.drop_first()
    } else {
        decoded@
    };
    assert(src =~= decoded@.subrange(start as int, decoded@.len() as int));
    let mut out = String::new();
    let mut i: usize = start;
    while i < chars.len()
        invariant
            chars@ == decoded@,
            start <= i <= chars@.len(),
            src == decoded@.subrange(start as int, decoded@.len() as int),
            out@ == backslashed(src.subrange(0, i - start)),
        decreases chars@.len() - i,
    {
        let c = chars[i];
        push_char(&mut out, if c == '/' { '\\' } else { c });
        i += 1;
        assert(out@ =~= backslashed(src.subrange(0, i - start)));
    }
    assert(src.subrange(0, src.len() as int) =~= src);
    out
}

/// A path escaped for a Python string literal: each backslash and double
/// quote gets a backslash before it.
pub open spec fn python_escaped(s: Seq<char>) -> Seq<char>
    decreases s.len(),
{
    if s.len() == 0 {
        seq![]
    } else {
        let c = s.last();
        python_escaped(s.drop_last()) + if c == '\\' || c == '"' {
            seq!['\\', c]
        } else {
            seq![c]
        }
    }
}

pub trait PythonExt {
    /// Escapes the path for use inside a double-quoted Python string.
    fn escape_for_python(&self) -> String;
}

impl PythonExt for str {
    fn escape_for_python(&self) -> (r: String)
        ensures
            r@ == python_escaped(self@),
    {
        let chars = chars_of(self);
        let mut out = String::new();
        let mut i: usize = 0;
        while i < chars.len()
            invariant
                chars@ == self@,
                i <= chars@.len(),
                out@ == python_escaped(self@.subrange(0, i as int)),
            decreases chars@.len() - i,
        {
            let c = chars[i];
            assert(self@.subrange(0, i + 1).drop_last() =~= self@.subrange(0, i as int));
            if c == '\\' || c == '"' {
                push_char(&mut out, '\\');
            }
            push_char(&mut out, c);
            i += 1;
            assert(out@ =~= python_escaped(self@.subrange(0, i as int)));
        }
        assert(self@.subrange(0, chars@.len() as int) =~= self@);
        out
    }
}

impl PythonExt for String {
    fn escape_for_python(&self) -> (r: String)
        ensures
            r@ == python_escaped(self@),
    {
        self.as_str().escape_for_python()
    }
}

/// The verbatim prefix `\\?\` of a Windows path.
pub open spec fn has_verbatim_prefix(p: Seq<char>) -> bool {
    p.len() >= 4 && p.subrange(0, 4) == seq!['\\', '\\', '?', '\\']
}

/// `r` is `path` simplified: the path as it is, or, where it has a verbatim
/// prefix, the path without it.
pub open spec fn simplified_from(path: Seq<char>, r: Seq<char>) -> bool {
    r == path || (has_verbatim_prefix(path) && r == path.subrange(4, path.len() as int))
}

/// Relies on `dunce::simplified`: on Windows it strips the `\\?\` prefix of
/// a path where that is safe; it returns every other path unchanged.
#[verifier::external_body]
fn dunce_simplified(path: &str) -> (r: String)
    ensures
        simplified_from(path@, r@),
{
    dunce::simplified(std::path::Path::new(path)).to_string_lossy().into_owned()
}

/// The components of `path` after those of `prefix`, when `path` starts with
/// all of them.
pub open spec fn strip_prefix_parts(path: Seq<Part>, prefix: Seq<Part>) -> Option<Seq<Part>> {
    if prefix.len() <= path.len() && path.subrange(0, prefix.len() as int) == prefix {
        Some(path.subrange(prefix.len() as int, path.len() as int))
    } else {
        None
    }
}

fn strip_prefix_components(path: &Vec<Component>, prefix: &Vec<Component>) -> (r: Option<
    Vec<Component>,
>)
    ensures
        r is Some <==> strip_prefix_parts(parts_view(path@), parts_view(prefix@)) is Some,
        r matches Some(v) ==> parts_view(v@) == strip_prefix_parts(
            parts_view(path@),
            parts_view(prefix@),
        )->0,
{
    let k = prefix.len();
    if k > path.len() {
        return None;
    }
    if !shares_prefix_exec(path, prefix, k) {
        assert(!(parts_view(path@).subrange(0, k as int) == parts_view(prefix@))) by {
            assert(parts_view(prefix@).subrange(0, k as int) =~= parts_view(prefix@));
        }
        return None;
    }
    assert(parts_view(prefix@).subrange(0, k as int) =~= parts_view(prefix@));
    let mut out: Vec<Component> = Vec::new();
    let mut i: usize = k;
    while i < path.len()
        invariant
            k <= i <= path@.len(),
            parts_view(out@) == parts_view(path@).subrange(k as int, i as int),
        decreases path@.len() - i,
    {
        let ghost before = parts_view(out@);
        let c = copy_component(&path[i]);
        out.push(c);
        i += 1;
        assert(parts_view(out@) =~= before.push(c@));
        assert(before.push(c@) =~= parts_view(path@).subrange(k as int, i as int));
    }
    Some(out)
}

/// What a path shows to a user: relative to `base` where it lies below it,
/// else relative to the working directory `cwd`, else as it is; the empty
/// path shows as `.`. With the root as working directory the path shows as it
/// is.
pub open spec fn user_display_parts(path: Seq<char>, base: Seq<char>, cwd: Seq<char>) -> Seq<
    char,
> {
    if parts_of(cwd).len() <= 1 && (parts_of(cwd).len() == 0 || parts_of(cwd)[0] is Root) {
        path
    } else {
        let rest = match strip_prefix_parts(parts_of(path), parts_of(base)) {
            Some(r) => r,
            None => match strip_prefix_parts(parts_of(path), parts_of(cwd)) {
                Some(r) => r,
                None => parts_of(path),
            },
        };
        if render(rest).len() == 0 {
            seq!['.']
        } else {
            render(rest)
        }
    }
}

pub trait Simplified {
    /// The path without a Windows verbatim prefix.
    fn simplified(&self) -> String;

    /// The path for a user, relative to `base` or else to the working
    /// directory `cwd`.
    fn user_display_from(&self, base: &str, cwd: &str) -> String;

    /// The path for a user, relative to the working directory `cwd`.
    fn user_display(&self, cwd: &str) -> String;

    /// The path relative to the working directory `cwd` where it lies below
    /// it, with `/` separators.
    fn portable_display(&self, cwd: &str) -> String;
}

/// What a path shows to a user relative to the working directory: as it is
/// with the root as working directory; `.` for the empty path; else without
/// the working directory in front.
pub open spec fn user_display_spec(path: Seq<char>, cwd: Seq<char>) -> Seq<char> {
    if parts_of(cwd).len() <= 1 && (parts_of(cwd).len() == 0 || parts_of(cwd)[0] is Root) {
        path
    } else if path.len() == 0 {
        seq!['.']
    } else {
        match strip_prefix_parts(parts_of(path), parts_of(cwd)) {
            Some(r) => render(r),
            None => path,
        }
    }
}

/// The portable display of a path: without the working directory in front
/// where it lies below it.
pub open spec fn portable_display_spec(path: Seq<char>, cwd: Seq<char>) -> Seq<char> {
    match strip_prefix_parts(parts_of(path), parts_of(cwd)) {
        Some(r) => render(r),
        None => path,
    }
}

fn is_root_path(cwd: &Vec<Component>) -> (r: bool)
    ensures
        r == (cwd@.len() <= 1 && (cwd@.len() == 0 || cwd@[0]@ is Root)),
{
    cwd.len() == 0 || (cwd.len() == 1 && part_is_root(&cwd[0]))
}

impl Simplified for str {
    fn simplified(&self) -> (r: String)
        ensures
            simplified_from(self@, r@),
            !has_verbatim_prefix(self@) ==> r@ == self@,
    {
        dunce_simplified(self)
    }

    fn user_display_from(&self, base: &str, cwd: &str) -> (r: String)
        ensures
            exists|p: Seq<char>|
                simplified_from(self@, p) && r@ == #[trigger] user_display_parts(p, base@, cwd@),
            !has_verbatim_prefix(self@) ==> r@ == user_display_parts(self@, base@, cwd@),
    {
        let path = dunce_simplified(self);
        let ghost p = path@;
        let cwd_parts = components(cwd);
        let r = if is_root_path(&cwd_parts) {
            path
        } else {
            let parts = components(path.as_str());
            let base_parts = components(base);
            let rest = match strip_prefix_components(&parts, &base_parts) {
                Some(r) => r,
                None => match strip_prefix_components(&parts, &cwd_parts) {
                    Some(r) => r,
                    None => parts,
                },
            };
            let shown = render_components(&rest);
            if shown.unicode_len() == 0 {
                let mut dot = String::new();
                push_char(&mut dot, '.');
                assert(dot@ =~= seq!['.']);
                dot
            } else {
                shown
            }
        };
        assert(r@ == user_display_parts(p, base@, cwd@));
        r
    }

    fn user_display(&self, cwd: &str) -> (r: String)
        ensures
            exists|p: Seq<char>| simplified_from(self@, p) && r@ == #[trigger] user_display_spec(p, cwd@),
            !has_verbatim_prefix(self@) ==> r@ == user_display_spec(self@, cwd@),
    {
        let path = dunce_simplified(self);
        let ghost p = path@;
        let cwd_parts = components(cwd);
        let r = if is_root_path(&cwd_parts) {
            path
        } else if path.unicode_len() == 0 {
            let mut dot = String::new();
            push_char(&mut dot, '.');
            assert(dot@ =~= seq!['.']);
            dot
        } else {
            let parts = components(path.as_str());
            match strip_prefix_components(&parts, &cwd_parts) {
                Some(rest) => render_components(&rest),
                None => path,
            }
        };
        assert(r@ == user_display_spec(p, cwd@));
        r
    }


    fn portable_display(&self, cwd: &str) -> (r: String)
        ensures
            exists|p: Seq<char>|
                simplified_from(self@, p) && (r@.len() == 0 <==> #[trigger] portable_display_spec(
                    p,
                    cwd@,
                ).len() == 0),
    {
        let path = dunce_simplified(self);
        let cwd_parts = components(cwd);
        let parts = components(path.as_str());
        let shown = match strip_prefix_components(&parts, &cwd_parts) {
            Some(rest) => render_components(&rest),
            None => path,
        };
        let ghost p = path@;
        let ghost shown_v = shown@;
        let r = to_slash_lossy(shown.as_str());
        assert(shown_v == portable_display_spec(p, cwd@));
        assert(simplified_from(self@, p));
        r
    }
}


// ---------------------------------------------------------------------------
// Portable paths.

/// A path written in a portable way: `/` as separator and `.` for the empty
/// path.
#[derive(Debug, Clone)]
pub struct PortablePathBuf {
    path: String,
}

/// A borrowed path written in a portable way.
#[derive(Debug, Clone)]
pub struct PortablePath<'a> {
    path: &'a str,
}

/// Relies on `path_slash::PathExt::to_slash_lossy`, which writes a path with
/// `/` separators: outside Windows the path's text as it is, on Windows the
/// path rebuilt from its components. Either way only the empty path gives
/// the empty text.
#[verifier::external_body]
fn to_slash_lossy(path: &str) -> (r: String)
    ensures
        r@.len() == 0 <==> path@.len() == 0,
{
    path_slash::PathExt::to_slash_lossy(std::path::Path::new(path)).into_owned()
}

impl<'a> PortablePath<'a> {
    pub closed spec fn view_path(&self) -> Seq<char> {
        self.path@
    }

    pub fn new(path: &'a str) -> (r: PortablePath<'a>)
        ensures
            r.view_path() == path@,
    {
        PortablePath { path }
    }

    pub fn as_str(&self) -> (r: &str)
        ensures
            r@ == self.view_path(),
    {
        self.path
    }

    /// The portable text of the path: `.` for the empty path, the path with
    /// `/` separators otherwise.
    pub fn to_portable_string(&self) -> (r: String)
        ensures
            self.view_path().len() == 0 ==> r@ == seq!['.'],
            self.view_path().len() > 0 ==> r@.len() > 0,
    {
        let text = to_slash_lossy(self.path);
        if text.unicode_len() == 0 {
            let mut s = String::new();
            push_char(&mut s, '.');
            assert(s@ =~= seq!['.']);
            s
        } else {
            text
        }
    }
}

impl PortablePathBuf {
    pub closed spec fn view_path(&self) -> Seq<char> {
        self.path@
    }

    /// Reads a portable path: `.` stands for the empty path.
    pub fn from_portable(s: &str) -> (r: PortablePathBuf)
        ensures
            r.view_path() == if s@ == seq!['.'] {
                Seq::<char>::empty()
            } else {
                s@
            },
    {
        if s.unicode_len() == 1 && s.get_char(0) == '.' {
            assert(s@ =~= seq!['.']);
            PortablePathBuf { path: String::new() }
        } else {
            PortablePathBuf { path: s.to_owned() }
        }
    }

    pub fn as_str(&self) -> (r: &str)
        ensures
            r@ == self.view_path(),
    {
        self.path.as_str()
    }

    /// The portable text of the path: `.` for the empty path, the path with
    /// `/` separators otherwise.
    pub fn to_portable_string(&self) -> (r: String)
        ensures
            self.view_path().len() == 0 ==> r@ == seq!['.'],
            self.view_path().len() > 0 ==> r@.len() > 0,
    {
        PortablePath::new(self.path.as_str()).to_portable_string()
    }
}

} // verus!
