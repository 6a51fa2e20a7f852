//! The name resolver of the metadata cache: dot-separated paths naming
//! namespaces and tables, each with an object id.
use vstd::prelude::*;
use vstd::string::{StrSliceExecFns, StringExecFns};
use crate::kvt::config::{NamespaceConfig, StorageEngineType, TableConfig, TableSharding};
use crate::kvt::transaction::Timestamp;

verus! {

/// Kinds of objects that paths name.
#[derive(Debug, Clone, Copy, PartialEq, Eq, Structural)]
pub enum ObjectType {
    /// A namespace, which holds namespaces and tables.
    Namespace,
    /// A table, which holds data.
    Table,
}

/// One named object of the resolver.
struct PathEntry {
    path: String,
    id: u64,
    object_type: ObjectType,
}

/// What a path names: its object id and type.
pub type Named = (u64, ObjectType);

/// Views of the resolver's entries.
pub open spec fn entry_seq(es: Seq<(Seq<char>, Named)>) -> Map<Seq<char>, Named>
    decreases es.len(),
{
    if es.len() == 0 {
        Map::empty()
    } else {
        entry_seq(es.drop_last()).insert(es.last().0, es.last().1)
    }
}

/// No path occurs twice.
pub open spec fn paths_unique(es: Seq<(Seq<char>, Named)>) -> bool {
    forall|i: int, j: int| 0 <= i < j < es.len() ==> (#[trigger] es[i]).0 != (#[trigger] es[j]).0
}

/// `p` is a prefix of `k`.
pub open spec fn starts_with(k: Seq<char>, p: Seq<char>) -> bool {
    p.len() <= k.len() && k.subrange(0, p.len() as int) == p
}

/// `k` names an object below `p`: it starts with `p` and a dot.
pub open spec fn below(k: Seq<char>, p: Seq<char>) -> bool {
    starts_with(k, p + seq!['.'])
}

/// Moving `from` carries `k` along: `k` is `from` or lies below it.
pub open spec fn moves(k: Seq<char>, from: Seq<char>) -> bool {
    k == from || below(k, from)
}

/// Where moving `from` to `to` puts `k`.
pub open spec fn reroot(k: Seq<char>, from: Seq<char>, to: Seq<char>) -> Seq<char> {
    if moves(k, from) {
        to + k.skip(from.len() as int)
    } else {
        k
    }
}

/// Some path of `m` lies below `p`.
pub open spec fn has_below(m: Map<Seq<char>, Named>, p: Seq<char>) -> bool {
    exists|k: Seq<char>| m.contains_key(k) && below(k, p)
}

/// The paths of `m` after moving `from`, and every path below it, to `to`.
pub open spec fn rerooted(m: Map<Seq<char>, Named>, from: Seq<char>, to: Seq<char>) -> Map<Seq<char>, Named> {
    Map::new(
        |k: Seq<char>|
            (m.contains_key(k) && !moves(k, from)) || ((k == to || below(k, to)) && m.contains_key(
                from + k.skip(to.len() as int),
            )),
        |k: Seq<char>|
            if m.contains_key(k) && !moves(k, from) {
                m[k]
            } else {
                m[from + k.skip(to.len() as int)]
            },
    )
}

proof fn lemma_entry_seq(es: Seq<(Seq<char>, Named)>)
    requires
        paths_unique(es),
    ensures
        forall|k: Seq<char>| #[trigger] entry_seq(es).contains_key(k) <==> exists|i: int| 0 <= i < es.len() && es[i].0 == k,
        forall|i: int| 0 <= i < es.len() ==> entry_seq(es)[#[trigger] es[i].0] == es[i].1,
    decreases es.len(),
{
    if es.len() > 0 {
        let d = es.drop_last();
        assert(paths_unique(d)) by {
            assert forall|i: int, j: int| 0 <= i < j < d.len() implies (#[trigger] d[i]).0 != (#[trigger] d[j]).0 by {
                assert(d[i] == es[i] && d[j] == es[j]);
            }
        }
        lemma_entry_seq(d);
        assert forall|k: Seq<char>| #[trigger] entry_seq(es).contains_key(k) <==> exists|i: int| 0 <= i < es.len() && es[i].0 == k by {
            if entry_seq(es).contains_key(k) && k != es.last().0 {
                assert(entry_seq(d).contains_key(k));
                let i = choose|i: int| 0 <= i < d.len() && d[i].0 == k;
                assert(es[i] == d[i]);
            }
            if exists|i: int| 0 <= i < es.len() && es[i].0 == k {
                let i = choose|i: int| 0 <= i < es.len() && es[i].0 == k;
                if i < es.len() - 1 {
                    assert(d[i] == es[i]);
                }
            }
        }
        assert forall|i: int| 0 <= i < es.len() implies entry_seq(es)[#[trigger] es[i].0] == es[i].1 by {
            if i < es.len() - 1 {
                assert(d[i] == es[i]);
                assert(es[i].0 != es[es.len() - 1].0);
            }
        }
    }
}

/// Whether the text of `a` equals the text of `b`.
fn str_eq(a: &str, b: &str) -> (r: bool)
    ensures
        r == (a@ == b@),
{
    let n = a.unicode_len();
    if n != b.unicode_len() {
        return false;
    }
    let mut i: usize = 0;
    while i < n
        invariant
            n == a@.len(),
            n == b@.len(),
            i <= n,
            a@.subrange(0, i as int) == b@.subrange(0, i as int),
        decreases n - i,
    {
        if a.get_char(i) != b.get_char(i) {
            return false;
        }
        assert(a@.subrange(0, i + 1) =~= a@.subrange(0, i as int).push(a@[i as int]));
        assert(b@.subrange(0, i + 1) =~= b@.subrange(0, i as int).push(b@[i as int]));
        i = i + 1;
    }
    assert(a@ =~= a@.subrange(0, n as int));
    assert(b@ =~= b@.subrange(0, n as int));
    true
}

/// Whether `k` starts with `p`.
fn str_starts_with(k: &str, p: &str) -> (r: bool)
    ensures
        r == starts_with(k@, p@),
{
    let n = p.unicode_len();
    if n > k.unicode_len() {
        return false;
    }
    str_eq(k.substring_char(0, n), p)
}

/// Whether `k` lies below `p`.
fn str_below(k: &str, p: &str) -> (r: bool)
    ensures
        r == below(k@, p@),
{
    let n = p.unicode_len();
    let m = k.unicode_len();
    if n >= m {
        return false;
    }
    let head = str_starts_with(k, p);
    let dot = k.get_char(n) == '.';
    proof {
        let q = p@ + seq!['.'];
        if head && dot {
            assert(k@.subrange(0, n + 1) =~= q);
        }
        if below(k@, p@) {
            assert(k@.subrange(0, n + 1) == q);
            assert(k@.subrange(0, n as int) =~= k@.subrange(0, n + 1).subrange(0, n as int));
            assert(q.subrange(0, n as int) =~= p@);
            assert(k@[n as int] == k@.subrange(0, n + 1)[n as int]);
            assert(q[n as int] == '.');
        }
    }
    head && dot
}

/// Splitting a path at dots, left to right: the components finished so far
/// and the component being read.
pub open spec fn comp_state(s: Seq<char>) -> (Seq<Seq<char>>, Seq<char>)
    decreases s.len(),
{
    if s.len() == 0 {
        (Seq::empty(), Seq::empty())
    } else {
        let (d, c) = comp_state(s.drop_last());
        if s.last() == '.' {
            if c.len() > 0 {
                (d.push(c), Seq::empty())
            } else {
                (d, Seq::empty())
            }
        } else {
            (d, c.push(s.last()))
        }
    }
}

/// The non-empty components of a dot-separated path.
pub open spec fn components(s: Seq<char>) -> Seq<Seq<char>> {
    let (d, c) = comp_state(s);
    if c.len() > 0 {
        d.push(c)
    } else {
        d
    }
}

/// Components joined with dots.
pub open spec fn join(cs: Seq<Seq<char>>) -> Seq<char>
    decreases cs.len(),
{
    if cs.len() == 0 {
        Seq::empty()
    } else if cs.len() == 1 {
        cs[0]
    } else {
        join(cs.drop_last()) + seq!['.'] + cs.last()
    }
}

/// The text of segments `segs` of `s`.
pub open spec fn seg_views(s: Seq<char>, segs: Seq<(usize, usize)>) -> Seq<Seq<char>> {
    segs.map_values(|p: (usize, usize)| s.subrange(p.0 as int, p.1 as int))
}

/// The segments of `s` holding its components, in order.
fn split_path(s: &str) -> (r: Vec<(usize, usize)>)
    ensures
        seg_views(s@, r@) == components(s@),
        forall|i: int| 0 <= i < r@.len() ==> (#[trigger] r@[i]).0 <= r@[i].1 <= s@.len(),
{
    let n = s.unicode_len();
    let mut segs: Vec<(usize, usize)> = Vec::new();
    let mut start: usize = 0;
    let mut i: usize = 0;
    assert(s@.take(0) =~= Seq::<char>::empty());
    assert(s@.subrange(0, 0) =~= Seq::<char>::empty());
    assert(seg_views(s@, segs@) =~= Seq::<Seq<char>>::empty());
    while i < n
        invariant
            n == s@.len(),
            start <= i <= n,
            comp_state(s@.take(i as int)) == (seg_views(s@, segs@), s@.subrange(start as int, i as int)),
            forall|j: int| 0 <= j < segs@.len() ==> (#[trigger] segs@[j]).0 <= segs@[j].1 <= s@.len(),
        decreases n - i,
    {
        let c = s.get_char(i);
        assert(s@.take(i + 1).drop_last() =~= s@.take(i as int));
        assert(s@.take(i + 1).last() == c);
        let ghost sv = seg_views(s@, segs@);
        if c == '.' {
            if start < i {
                segs.push((start, i));
                assert(seg_views(s@, segs@) =~= sv.push(s@.subrange(start as int, i as int)));
            }
            start = i + 1;
            assert(s@.subrange(start as int, i + 1) =~= Seq::<char>::empty());
        } else {
            assert(s@.subrange(start as int, i + 1) =~= s@.subrange(start as int, i as int).push(c));
        }
        i = i + 1;
    }
    assert(s@.take(n as int) =~= s@);
    if start < n {
        let ghost sv = seg_views(s@, segs@);
        segs.push((start, n));
        assert(seg_views(s@, segs@) =~= sv.push(s@.subrange(start as int, n as int)));
    }
    segs
}

/// The first `k` components of `s`, joined with dots.
fn join_segments(s: &str, segs: &Vec<(usize, usize)>, k: usize) -> (r: String)
    requires
        k <= segs@.len(),
        forall|i: int| 0 <= i < segs@.len() ==> (#[trigger] segs@[i]).0 <= segs@[i].1 <= s@.len(),
    ensures
        r@ == join(seg_views(s@, segs@).take(k as int)),
{
    let ghost cs = seg_views(s@, segs@);
    let mut out = String::new();
    let mut j: usize = 0;
    proof {
        reveal_strlit(".");
        assert(cs.take(0) =~= Seq::<Seq<char>>::empty());
    }
    while j < k
        invariant
            k <= segs@.len(),
            cs == seg_views(s@, segs@),
            forall|i: int| 0 <= i < segs@.len() ==> (#[trigger] segs@[i]).0 <= segs@[i].1 <= s@.len(),
            j <= k,
            out@ == join(cs.take(j as int)),
        decreases k - j,
    {
        proof { reveal_strlit("."); }
        if j > 0 {
            out.append(".");
        }
        let (a, b) = segs[j];
        out.append(s.substring_char(a, b));
        assert(cs[j as int] == s@.subrange(a as int, b as int));
        assert(cs.take(j + 1).drop_last() =~= cs.take(j as int));
        if j == 0 {
            assert(out@ =~= cs.take(1)[0]);
        }
        j = j + 1;
    }
    out
}

/// Why moving `from` to `to` in `m` fails, if it does.
pub open spec fn move_refusal(m: Map<Seq<char>, Named>, from: Seq<char>, to: Seq<char>) -> Option<Seq<char>> {
    let cs = components(to);
    if !m.contains_key(from) {
        Some("Source path not found: "@ + from)
    } else if cs.len() == 0 {
        Some("Empty destination path"@)
    } else if cs.len() > 1 && !m.contains_key(join(cs.drop_last())) {
        Some("Parent path not found: "@ + join(cs.drop_last()))
    } else if m.contains_key(to) {
        Some("Destination path already exists: "@ + to)
    } else if has_below(m, to) {
        Some("Destination path already has paths below it: "@ + to)
    } else {
        None
    }
}

/// A path that starts with `p` is `p` followed by the rest.
proof fn lemma_prefix_split(k: Seq<char>, p: Seq<char>)
    requires
        starts_with(k, p),
    ensures
        p + k.skip(p.len() as int) == k,
{
    assert(p + k.skip(p.len() as int) =~= k) by {
        assert forall|j: int| 0 <= j < k.len() implies (p + k.skip(p.len() as int))[j] == k[j] by {
            if j < p.len() {
                assert(k.subrange(0, p.len() as int)[j] == k[j]);
            }
        }
    }
}

/// Where a moved path goes lies at `to` or below it, and comes from `from`
/// followed by what follows `to` in it.
proof fn lemma_reroot_image(k: Seq<char>, from: Seq<char>, to: Seq<char>)
    requires
        moves(k, from),
    ensures
        reroot(k, from, to) == to || below(reroot(k, from, to), to),
        from + reroot(k, from, to).skip(to.len() as int) == k,
{
    let x = k.skip(from.len() as int);
    let img = to + x;
    assert(img.skip(to.len() as int) =~= x);
    if k == from {
        assert(x =~= Seq::<char>::empty());
        assert(img =~= to);
    } else {
        assert(k.subrange(0, from.len() + 1 as int) == from + seq!['.']);
        assert(x[0] == k[from.len() as int]);
        assert(k[from.len() as int] == k.subrange(0, from.len() + 1 as int)[from.len() as int]);
        assert(img.subrange(0, to.len() + 1 as int) =~= to + seq!['.']);
    }
    assert(starts_with(k, from)) by {
        if k != from {
            assert(k.subrange(0, from.len() as int) =~= k.subrange(0, from.len() + 1 as int).subrange(0, from.len() as int));
            assert((from + seq!['.']).subrange(0, from.len() as int) =~= from);
        } else {
            assert(k.subrange(0, from.len() as int) =~= k);
        }
    }
    lemma_prefix_split(k, from);
}

/// A path at `to` or below it goes back to `from` followed by what follows
/// `to`, which `from` carries along.
proof fn lemma_reroot_source(k: Seq<char>, from: Seq<char>, to: Seq<char>)
    requires
        k == to || below(k, to),
    ensures
        moves(from + k.skip(to.len() as int), from),
        reroot(from + k.skip(to.len() as int), from, to) == k,
{
    let x = k.skip(to.len() as int);
    let j = from + x;
    assert(j.skip(from.len() as int) =~= x);
    if k == to {
        assert(x =~= Seq::<char>::empty());
        assert(j =~= from);
        assert(to + x =~= k);
    } else {
        assert(k.subrange(0, to.len() + 1 as int) == to + seq!['.']);
        assert(x[0] == k[to.len() as int]);
        assert(k[to.len() as int] == k.subrange(0, to.len() + 1 as int)[to.len() as int]);
        assert(j.subrange(0, from.len() + 1 as int) =~= from + seq!['.']);
        assert(starts_with(k, to)) by {
            assert(k.subrange(0, to.len() as int) =~= k.subrange(0, to.len() + 1 as int).subrange(0, to.len() as int));
            assert((to + seq!['.']).subrange(0, to.len() as int) =~= to);
        }
        lemma_prefix_split(k, to);
    }
}

/// Rerooting every entry of a resolver whose move is not refused keeps paths
/// unique and gives the rerooted map.
proof fn lemma_reroot_entries(
    es: Seq<(Seq<char>, Named)>,
    es2: Seq<(Seq<char>, Named)>,
    from: Seq<char>,
    to: Seq<char>,
)
    requires
        paths_unique(es),
        es2.len() == es.len(),
        forall|i: int| 0 <= i < es.len() ==> #[trigger] es2[i] == (reroot(es[i].0, from, to), es[i].1),
        !entry_seq(es).contains_key(to),
        !has_below(entry_seq(es), to),
    ensures
        paths_unique(es2),
        entry_seq(es2) == rerooted(entry_seq(es), from, to),
{
    let m = entry_seq(es);
    lemma_entry_seq(es);
    // An entry that stays is neither at `to` nor below it.
    assert forall|i: int| 0 <= i < es.len() && !moves(es[i].0, from) implies !(es[i].0 == to || below(es[i].0, to)) by {
        assert(m.contains_key(es[i].0));
    }
    assert forall|i: int| 0 <= i < es.len() && moves(es[i].0, from) implies (reroot(es[i].0, from, to) == to || below(
        reroot(es[i].0, from, to),
        to,
    )) && from + reroot(es[i].0, from, to).skip(to.len() as int) == es[i].0 by {
        lemma_reroot_image(es[i].0, from, to);
    }
    assert(paths_unique(es2)) by {
        assert forall|i: int, j: int| 0 <= i < j < es2.len() implies (#[trigger] es2[i]).0 != (#[trigger] es2[j]).0 by {
            let a = es[i].0;
            let b = es[j].0;
            assert(es2[i].0 == reroot(a, from, to));
            assert(es2[j].0 == reroot(b, from, to));
            if moves(a, from) && moves(b, from) {
                if reroot(a, from, to) == reroot(b, from, to) {
                    assert(a == b);
                }
            }
        }
    }
    lemma_entry_seq(es2);
    let r = rerooted(m, from, to);
    assert forall|k: Seq<char>| #[trigger] entry_seq(es2).contains_key(k) <==> r.contains_key(k) by {
        if entry_seq(es2).contains_key(k) {
            let i = choose|i: int| 0 <= i < es2.len() && es2[i].0 == k;
            assert(es2[i] == (reroot(es[i].0, from, to), es[i].1));
            assert(m.contains_key(es[i].0));
        }
        if r.contains_key(k) {
            if m.contains_key(k) && !moves(k, from) {
                let i = choose|i: int| 0 <= i < es.len() && es[i].0 == k;
                assert(es2[i] == (reroot(es[i].0, from, to), es[i].1));
            } else {
                let j = from + k.skip(to.len() as int);
                lemma_reroot_source(k, from, to);
                let i = choose|i: int| 0 <= i < es.len() && es[i].0 == j;
                assert(es2[i] == (reroot(es[i].0, from, to), es[i].1));
            }
        }
    }
    assert forall|k: Seq<char>| #[trigger] entry_seq(es2).contains_key(k) implies entry_seq(es2)[k] == r[k] by {
        let i = choose|i: int| 0 <= i < es2.len() && es2[i].0 == k;
        assert(es2[i] == (reroot(es[i].0, from, to), es[i].1));
        assert(entry_seq(es2)[es2[i].0] == es2[i].1);
        assert(m[es[i].0] == es[i].1);
        assert(m.contains_key(es[i].0));
    }
    assert(entry_seq(es2) =~= r);
}

/// Adding the prefixes of `cs` from the `i`-th on to `m`, whose next id is
/// `next`: each prefix not yet named gets the next id, as a namespace, except
/// the whole path, which gets type `t`.
pub open spec fn add_prefixes(
    m: Map<Seq<char>, Named>,
    next: int,
    cs: Seq<Seq<char>>,
    t: ObjectType,
    i: int,
) -> (Map<Seq<char>, Named>, int)
    decreases cs.len() - i,
{
    if i < 0 || i >= cs.len() {
        (m, next)
    } else {
        let p = join(cs.take(i + 1));
        let ty = if i + 1 == cs.len() { t } else { ObjectType::Namespace };
        if m.contains_key(p) {
            add_prefixes(m, next, cs, t, i + 1)
        } else {
            add_prefixes(m.insert(p, (next as u64, ty)), next + 1, cs, t, i + 1)
        }
    }
}

/// Why adding `path` to `m` fails, if it does.
pub open spec fn add_refusal(m: Map<Seq<char>, Named>, path: Seq<char>) -> Option<Seq<char>> {
    if components(path).len() == 0 {
        Some("Empty path"@)
    } else if m.contains_key(path) {
        Some("Path already exists: "@ + path)
    } else {
        None
    }
}

proof fn lemma_comp_state_len(s: Seq<char>)
    ensures
        comp_state(s).0.len() + comp_state(s).1.len() <= s.len(),
    decreases s.len(),
{
    if s.len() > 0 {
        lemma_comp_state_len(s.drop_last());
    }
}

proof fn lemma_add_prefixes_keeps(m: Map<Seq<char>, Named>, next: int, cs: Seq<Seq<char>>, t: ObjectType, i: int, k: Seq<char>)
    requires
        m.contains_key(k),
    ensures
        add_prefixes(m, next, cs, t, i).0.contains_key(k),
        add_prefixes(m, next, cs, t, i).0[k] == m[k],
    decreases cs.len() - i,
{
    if 0 <= i < cs.len() {
        let p = join(cs.take(i + 1));
        let ty = if i + 1 == cs.len() { t } else { ObjectType::Namespace };
        if m.contains_key(p) {
            lemma_add_prefixes_keeps(m, next, cs, t, i + 1, k);
        } else {
            lemma_add_prefixes_keeps(m.insert(p, (next as u64, ty)), next + 1, cs, t, i + 1, k);
        }
    }
}

/// `a` sorts before `b`: character by character, by code point, a proper
/// prefix first (the order of Rust's `String`).
pub open spec fn text_lt(a: Seq<char>, b: Seq<char>) -> bool
    decreases a.len(),
{
    if a.len() == 0 {
        b.len() > 0
    } else if b.len() == 0 {
        false
    } else if a[0] != b[0] {
        (a[0] as int) < (b[0] as int)
    } else {
        text_lt(a.drop_first(), b.drop_first())
    }
}

proof fn lemma_text_trichotomy(a: Seq<char>, b: Seq<char>)
    ensures
        text_lt(a, b) || a == b || text_lt(b, a),
        !(text_lt(a, b) && text_lt(b, a)),
        !text_lt(a, a),
    decreases a.len(),
{
    if a.len() > 0 && b.len() > 0 {
        lemma_text_trichotomy(a.drop_first(), b.drop_first());
        lemma_text_trichotomy(a.drop_first(), a.drop_first());
        if a[0] == b[0] && a.drop_first() == b.drop_first() {
            assert(a =~= seq![a[0]] + a.drop_first());
            assert(b =~= seq![b[0]] + b.drop_first());
        }
    } else if a.len() == 0 && b.len() == 0 {
        assert(a =~= b);
    } else if a.len() > 0 {
        lemma_text_trichotomy(a.drop_first(), a.drop_first());
    }
}

proof fn lemma_text_transitive(a: Seq<char>, b: Seq<char>, c: Seq<char>)
    requires
        text_lt(a, b),
        text_lt(b, c),
    ensures
        text_lt(a, c),
    decreases a.len(),
{
    if a.len() > 0 && a[0] == b[0] && b[0] == c[0] {
        lemma_text_transitive(a.drop_first(), b.drop_first(), c.drop_first());
    }
}

/// Whether the text of `a` sorts before the text of `b`.
fn text_less(a: &str, b: &str) -> (r: bool)
    ensures
        r == text_lt(a@, b@),
{
    let la = a.unicode_len();
    let lb = b.unicode_len();
    let mut i: usize = 0;
    assert(a@.skip(0) =~= a@);
    assert(b@.skip(0) =~= b@);
    while i < la && i < lb
        invariant
            la == a@.len(),
            lb == b@.len(),
            i <= la,
            i <= lb,
            text_lt(a@, b@) == text_lt(a@.skip(i as int), b@.skip(i as int)),
        decreases la - i,
    {
        let ca = a.get_char(i);
        let cb = b.get_char(i);
        assert(a@.skip(i as int)[0] == ca);
        assert(b@.skip(i as int)[0] == cb);
        if ca != cb {
            return (ca as u32) < (cb as u32);
        }
        assert(a@.skip(i as int).drop_first() =~= a@.skip(i + 1));
        assert(b@.skip(i as int).drop_first() =~= b@.skip(i + 1));
        i = i + 1;
    }
    i == la && i < lb
}

/// The texts of the listed paths rise strictly.
pub open spec fn listing_sorted(o: Seq<(String, ObjectType)>) -> bool {
    forall|a: int, b: int| 0 <= a < b < o.len() ==> text_lt((#[trigger] o[a]).0@, (#[trigger] o[b]).0@)
}

/// Inserts `x` into the sorted listing `out` where its path belongs.
fn insert_sorted(out: &mut Vec<(String, ObjectType)>, x: (String, ObjectType)) -> (pos: usize)
    requires
        listing_sorted(old(out)@),
        forall|a: int| 0 <= a < old(out)@.len() ==> (#[trigger] old(out)@[a]).0@ != x.0@,
    ensures
        pos <= old(out)@.len(),
        final(out)@ == old(out)@.insert(pos as int, x),
        listing_sorted(final(out)@),
{
    let ghost o = out@;
    let mut pos: usize = 0;
    while pos < out.len()
        invariant_except_break
            o == out@,
            pos <= out@.len(),
            forall|a: int| 0 <= a < pos ==> !text_lt(x.0@, (#[trigger] out@[a]).0@),
        ensures
            o == out@,
            pos <= out@.len(),
            forall|a: int| 0 <= a < pos ==> !text_lt(x.0@, (#[trigger] out@[a]).0@),
            pos < out@.len() ==> text_lt(x.0@, out@[pos as int].0@),
        decreases out@.len() - pos,
    {
        if text_less(x.0.as_str(), out[pos].0.as_str()) {
            break;
        }
        pos = pos + 1;
    }
    proof {
        assert forall|a: int| 0 <= a < pos implies text_lt((#[trigger] o[a]).0@, x.0@) by {
            lemma_text_trichotomy(o[a].0@, x.0@);
        }
        assert forall|a: int| pos <= a < o.len() implies text_lt(x.0@, (#[trigger] o[a]).0@) by {
            if a > pos {
                lemma_text_transitive(x.0@, o[pos as int].0@, o[a].0@);
            }
        }
    }
    out.insert(pos, x);
    proof {
        let o2 = out@;
        assert forall|a: int, b: int| 0 <= a < b < o2.len() implies text_lt((#[trigger] o2[a]).0@, (#[trigger] o2[b]).0@) by {
            if a < pos && b < pos {
                assert(o2[a] == o[a] && o2[b] == o[b]);
            } else if a < pos && b == pos {
                assert(o2[a] == o[a]);
            } else if a < pos {
                assert(o2[a] == o[a] && o2[b] == o[b - 1]);
                lemma_text_transitive(o[a].0@, x.0@, o[b - 1].0@);
            } else if a == pos {
                assert(o2[b] == o[b - 1]);
            } else {
                assert(o2[a] == o[a - 1] && o2[b] == o[b - 1]);
            }
        }
    }
    pos
}

/// `k` is listed under the optional prefix `p`.
pub open spec fn admitted(p: Option<Seq<char>>, k: Seq<char>) -> bool {
    match p {
        Some(q) => starts_with(k, q),
        None => true,
    }
}

/// The text of an optional string.
pub open spec fn opt_text(p: Option<&str>) -> Option<Seq<char>> {
    match p {
        Some(s) => Some(s@),
        None => None,
    }
}

/// Metadata of a namespace.
pub struct NamespaceMetadata {
    pub id: u64,
    pub name: String,
    /// Path of the namespace within the hierarchy.
    pub path: String,
    pub created_at: Timestamp,
    pub last_modified: Timestamp,
}

/// Metadata of a table.
pub struct TableMetadata {
    pub id: u64,
    pub name: String,
    /// Path of the table within the hierarchy.
    pub path: String,
    pub created_at: Timestamp,
    pub engine_type: StorageEngineType,
    pub last_modified: Timestamp,
    /// Number of shards (1 for a single-shard table).
    pub shard_count: u32,
    /// Replicas of each shard (1 for a single-shard table).
    pub replication_factor: usize,
}

/// The path of an object named `name` under `parent`: the name itself under
/// the root (an empty parent), else the parent, a dot and the name.
pub open spec fn full_path(parent: Seq<char>, name: Seq<char>) -> Seq<char> {
    if parent.len() == 0 {
        name
    } else {
        parent + seq!['.'] + name
    }
}

/// `full_path` of `parent` and `name`.
fn make_full_path(parent: &str, name: &str) -> (r: String)
    ensures
        r@ == full_path(parent@, name@),
{
    if parent.unicode_len() == 0 {
        String::from_str(name)
    } else {
        proof {
            reveal_strlit(".");
        }
        let mut p = String::from_str(parent);
        p.append(".");
        p.append(name);
        p
    }
}

/// The shard count and replication factor of a sharding configuration.
fn sharding_counts(s: &TableSharding) -> (r: (u32, usize))
    ensures
        r == match s {
            TableSharding::Single => (1u32, 1usize),
            TableSharding::Multiple { shard_count, replication_factor, .. } => (*shard_count, *replication_factor),
        },
{
    match s {
        TableSharding::Single => (1, 1),
        TableSharding::Multiple { shard_count, replication_factor, .. } => (*shard_count, *replication_factor),
    }
}

/// The namespaces `s` after recording `x`: in place of the first namespace
/// with the same id, else appended.
pub open spec fn record_namespace(s: Seq<(u64, Seq<char>, Seq<char>)>, x: (u64, Seq<char>, Seq<char>)) -> Seq<(u64, Seq<char>, Seq<char>)> {
    if exists|i: int| 0 <= i < s.len() && #[trigger] s[i].0 == x.0 {
        s.update(choose|i: int| 0 <= i < s.len() && #[trigger] s[i].0 == x.0 && forall|q: int| 0 <= q < i ==> s[q].0 != x.0, x)
    } else {
        s.push(x)
    }
}

/// The tables `s` after recording `x`: in place of the first table with the
/// same id, else appended.
pub open spec fn record_table(
    s: Seq<(u64, Seq<char>, Seq<char>, u32, usize)>,
    x: (u64, Seq<char>, Seq<char>, u32, usize),
) -> Seq<(u64, Seq<char>, Seq<char>, u32, usize)> {
    if exists|i: int| 0 <= i < s.len() && #[trigger] s[i].0 == x.0 {
        s.update(choose|i: int| 0 <= i < s.len() && #[trigger] s[i].0 == x.0 && forall|q: int| 0 <= q < i ==> s[q].0 != x.0, x)
    } else {
        s.push(x)
    }
}

/// The name resolver of the metadata cache.
pub struct MetadataCache {
    entries: Vec<PathEntry>,
    next_resolver_id: u64,
    namespaces: Vec<NamespaceMetadata>,
    tables: Vec<TableMetadata>,
}

impl MetadataCache {
    /// The resolver's entries, in the order they are kept.
    pub closed spec fn entry_views(&self) -> Seq<(Seq<char>, Named)> {
        self.entries@.map_values(|e: PathEntry| (e.path@, (e.id, e.object_type)))
    }

    /// Each path and what it names.
    pub open spec fn paths(&self) -> Map<Seq<char>, Named> {
        entry_seq(self.entry_views())
    }

    /// The ids, names and paths of the namespaces recorded.
    pub closed spec fn namespace_views(&self) -> Seq<(u64, Seq<char>, Seq<char>)> {
        self.namespaces@.map_values(|m: NamespaceMetadata| (m.id, m.name@, m.path@))
    }

    /// The ids, names, paths and shard counts of the tables recorded.
    pub closed spec fn table_views(&self) -> Seq<(u64, Seq<char>, Seq<char>, u32, usize)> {
        self.tables@.map_values(|m: TableMetadata| (m.id, m.name@, m.path@, m.shard_count, m.replication_factor))
    }

    /// The id the next new path receives.
    pub closed spec fn next_id(&self) -> u64 {
        self.next_resolver_id
    }

    /// Paths are unique, and ids are unique and below the next id.
    pub closed spec fn wf(&self) -> bool {
        &&& paths_unique(self.entry_views())
        &&& forall|i: int, j: int|
            0 <= i < j < self.entries@.len() ==> (#[trigger] self.entries@[i]).id != (#[trigger] self.entries@[j]).id
        &&& forall|i: int| 0 <= i < self.entries@.len() ==> (#[trigger] self.entries@[i]).id < self.next_resolver_id
    }

    /// An empty resolver whose ids start at 0.
    pub fn new() -> (r: Self)
        ensures
            r.wf(),
            r.paths() == Map::<Seq<char>, Named>::empty(),
            r.next_id() == 0,
            r.namespace_views().len() == 0,
            r.table_views().len() == 0,
    {
        let r = MetadataCache { entries: Vec::new(), next_resolver_id: 0, namespaces: Vec::new(), tables: Vec::new() };
        assert(r.entry_views() =~= Seq::<(Seq<char>, Named)>::empty());
        r
    }

    /// Position of the entry for `path`.
    fn find(&self, path: &str) -> (r: Option<usize>)
        requires
            self.wf(),
        ensures
            match r {
                Some(i) => i < self.entries@.len() && self.entry_views()[i as int].0 == path@,
                None => !self.paths().contains_key(path@),
            },
    {
        proof {
            lemma_entry_seq(self.entry_views());
        }
        let mut i: usize = 0;
        while i < self.entries.len()
            invariant
                i <= self.entries@.len(),
                forall|j: int| 0 <= j < i ==> (#[trigger] self.entry_views()[j]).0 != path@,
            decreases self.entries@.len() - i,
        {
            assert(self.entry_views()[i as int].0 == self.entries@[i as int].path@);
            if str_eq(self.entries[i].path.as_str(), path) {
                return Some(i);
            }
            i = i + 1;
        }
        None
    }

    /// The id and type of the object at `path`, if any.
    pub fn get_path_reference(&self, path: &str) -> (r: Option<Named>)
        requires
            self.wf(),
        ensures
            r == (if self.paths().contains_key(path@) { Some(self.paths()[path@]) } else { None::<Named> }),
    {
        proof {
            lemma_entry_seq(self.entry_views());
        }
        match self.find(path) {
            Some(i) => {
                assert(self.entry_views()[i as int].1 == (self.entries@[i as int].id, self.entries@[i as int].object_type));
                Some((self.entries[i].id, self.entries[i].object_type))
            },
            None => None,
        }
    }

    /// Whether some path lies below `path`.
    fn any_below(&self, path: &str) -> (r: bool)
        requires
            self.wf(),
        ensures
            r == has_below(self.paths(), path@),
    {
        proof {
            lemma_entry_seq(self.entry_views());
        }
        let mut j: usize = 0;
        while j < self.entries.len()
            invariant
                self.wf(),
                j <= self.entries@.len(),
                forall|q: int| 0 <= q < j ==> !below((#[trigger] self.entry_views()[q]).0, path@),
            decreases self.entries@.len() - j,
        {
            assert(self.entry_views()[j as int].0 == self.entries@[j as int].path@);
            if str_below(self.entries[j].path.as_str(), path) {
                proof {
                    lemma_entry_seq(self.entry_views());
                }
                assert(self.paths().contains_key(self.entry_views()[j as int].0));
                return true;
            }
            j = j + 1;
        }
        proof {
            if has_below(self.paths(), path@) {
                let k = choose|k: Seq<char>| self.paths().contains_key(k) && below(k, path@);
                let q = choose|q: int| 0 <= q < self.entry_views().len() && self.entry_views()[q].0 == k;
            }
        }
        false
    }

    /// Removes the object at `path`; refused when there is none, or when
    /// paths lie below it.
    pub fn remove(&mut self, path: &str) -> (r: Result<(), String>)
        requires
            old(self).wf(),
        ensures
            final(self).wf(),
            final(self).namespace_views() == old(self).namespace_views(),
            final(self).table_views() == old(self).table_views(),
            final(self).next_id() == old(self).next_id(),
            !old(self).paths().contains_key(path@) ==> (r matches Err(e) && e@ == "Path not found: "@ + path@)
                && final(self).paths() == old(self).paths(),
            old(self).paths().contains_key(path@) && has_below(old(self).paths(), path@) ==> (r matches Err(e) && e@
                == "Cannot remove node with children: "@ + path@) && final(self).paths() == old(self).paths(),
            old(self).paths().contains_key(path@) && !has_below(old(self).paths(), path@) ==> r is Ok
                && final(self).paths() == old(self).paths().remove(path@),
    {
        let i = match self.find(path) {
            Some(i) => i,
            None => {
                let mut m = String::from_str("Path not found: ");
                m.append(path);
                return Err(m);
            },
        };
        proof {
            lemma_entry_seq(self.entry_views());
        }
        if self.any_below(path) {
            let mut m = String::from_str("Cannot remove node with children: ");
            m.append(path);
            return Err(m);
        }
        let ghost es = self.entry_views();
        let ghost m0 = self.paths();
        self.entries.remove(i);
        proof {
            let es2 = self.entry_views();
            assert(es2 =~= es.remove(i as int));
            assert(paths_unique(es2)) by {
                assert forall|a: int, b: int| 0 <= a < b < es2.len() implies (#[trigger] es2[a]).0 != (#[trigger] es2[b]).0 by {
                    let a0 = if a < i { a } else { a + 1 };
                    let b0 = if b < i { b } else { b + 1 };
                    assert(es2[a] == es[a0] && es2[b] == es[b0]);
                }
            }
            lemma_entry_seq(es2);
            assert forall|k: Seq<char>| #[trigger] entry_seq(es2).contains_key(k) <==> m0.remove(path@).contains_key(k) by {
                if entry_seq(es2).contains_key(k) {
                    let q = choose|q: int| 0 <= q < es2.len() && es2[q].0 == k;
                    let q0 = if q < i { q } else { q + 1 };
                    assert(es2[q] == es[q0]);
                }
                if m0.remove(path@).contains_key(k) {
                    let q = choose|q: int| 0 <= q < es.len() && es[q].0 == k;
                    assert(q != i);
                    let q2 = if q < i { q } else { q - 1 };
                    assert(es2[q2] == es[q]);
                }
            }
            assert forall|k: Seq<char>| #[trigger] entry_seq(es2).contains_key(k) implies entry_seq(es2)[k] == m0[k] by {
                let q = choose|q: int| 0 <= q < es2.len() && es2[q].0 == k;
                let q0 = if q < i { q } else { q + 1 };
                assert(es2[q] == es[q0]);
            }
            assert(entry_seq(es2) =~= m0.remove(path@));
        }
        Ok(())
    }

    /// Moves the object at `from`, and every object below it, to `to`: each
    /// path that is `from` or starts with `from` and a dot gets `to` in place of
    /// `from`. Refused, with nothing changed, when `from` names nothing, `to` has
    /// no component, the parent of `to` names nothing, `to` names an object
    /// already, or paths lie below `to`.
    pub fn move_object(&mut self, from: &str, to: &str) -> (r: Result<(), String>)
        requires
            old(self).wf(),
        ensures
            final(self).wf(),
            final(self).namespace_views() == old(self).namespace_views(),
            final(self).table_views() == old(self).table_views(),
            final(self).next_id() == old(self).next_id(),
            match move_refusal(old(self).paths(), from@, to@) {
                Some(msg) => (r matches Err(e) && e@ == msg) && final(self).paths() == old(self).paths(),
                None => r is Ok && final(self).paths() == rerooted(old(self).paths(), from@, to@),
            },
    {
        proof {
            lemma_entry_seq(self.entry_views());
        }
        if self.find(from).is_none() {
            let mut m = String::from_str("Source path not found: ");
            m.append(from);
            return Err(m);
        }
        let segs = split_path(to);
        if segs.len() == 0 {
            return Err(String::from_str("Empty destination path"));
        }
        if segs.len() > 1 {
            let parent = join_segments(to, &segs, segs.len() - 1);
            assert(seg_views(to@, segs@).take(segs@.len() - 1) =~= components(to@).drop_last());
            if self.find(parent.as_str()).is_none() {
                let mut m = String::from_str("Parent path not found: ");
                m.append(parent.as_str());
                return Err(m);
            }
        }
        if self.find(to).is_some() {
            proof {
                lemma_entry_seq(self.entry_views());
            }
            let mut m = String::from_str("Destination path already exists: ");
            m.append(to);
            return Err(m);
        }
        if self.any_below(to) {
            let mut m = String::from_str("Destination path already has paths below it: ");
            m.append(to);
            return Err(m);
        }
        let ghost es = self.entry_views();
        let from_len = from.unicode_len();
        let mut moved: Vec<PathEntry> = Vec::new();
        let mut j: usize = 0;
        while j < self.entries.len()
            invariant
                es == self.entry_views(),
                from_len == from@.len(),
                j <= self.entries@.len(),
                moved@.len() == j,
                forall|q: int| 0 <= q < j ==> (#[trigger] moved@[q]).id == self.entries@[q].id
                    && moved@[q].object_type == self.entries@[q].object_type
                    && moved@[q].path@ == reroot(self.entries@[q].path@, from@, to@),
            decreases self.entries@.len() - j,
        {
            let e = &self.entries[j];
            let p = e.path.as_str();
            let carried = str_eq(p, from) || str_below(p, from);
            let path = if carried {
                proof {
                    if !(p@ == from@) {
                        assert(below(p@, from@));
                    }
                    assert(starts_with(p@, from@)) by {
                        if p@ != from@ {
                            assert(p@.subrange(0, from@.len() as int) =~= p@.subrange(0, from@.len() + 1 as int).subrange(0, from@.len() as int));
                            assert((from@ + seq!['.']).subrange(0, from@.len() as int) =~= from@);
                        } else {
                            assert(p@.subrange(0, from@.len() as int) =~= p@);
                        }
                    }
                }
                let mut np = String::from_str(to);
                let n = p.unicode_len();
                np.append(p.substring_char(from_len, n));
                assert(p@.subrange(from_len as int, n as int) =~= p@.skip(from_len as int));
                np
            } else {
                e.path.clone()
            };
            moved.push(PathEntry { path, id: e.id, object_type: e.object_type });
            j = j + 1;
        }
        proof {
            let es2 = moved@.map_values(|e: PathEntry| (e.path@, (e.id, e.object_type)));
            assert forall|q: int| 0 <= q < es.len() implies #[trigger] es2[q] == (reroot(es[q].0, from@, to@), es[q].1) by {}
            lemma_reroot_entries(es, es2, from@, to@);
        }
        self.entries = moved;
        proof {
            assert forall|a: int, b: int|
                0 <= a < b < self.entries@.len() implies (#[trigger] self.entries@[a]).id != (#[trigger] self.entries@[b]).id by {
                assert(self.entries@[a].id == old(self).entries@[a].id);
                assert(self.entries@[b].id == old(self).entries@[b].id);
            }
            assert forall|a: int| 0 <= a < self.entries@.len() implies (#[trigger] self.entries@[a]).id < self.next_resolver_id by {
                assert(self.entries@[a].id == old(self).entries@[a].id);
            }
        }
        Ok(())
    }

    /// Adds an object of type `t` at `path`, with every namespace above it
    /// that is missing; returns the id of the object at the path's components
    /// joined with dots. Refused when `path` has no component or names an
    /// object already.
    pub fn add_path(&mut self, path: &str, t: ObjectType) -> (r: Result<u64, String>)
        requires
            old(self).wf(),
            old(self).next_id() + path@.len() < u64::MAX,
        ensures
            final(self).wf(),
            final(self).namespace_views() == old(self).namespace_views(),
            final(self).table_views() == old(self).table_views(),
            match add_refusal(old(self).paths(), path@) {
                Some(msg) => (r matches Err(e) && e@ == msg) && final(self).paths() == old(self).paths()
                    && final(self).next_id() == old(self).next_id(),
                None => {
                    &&& (final(self).paths(), final(self).next_id() as int) == add_prefixes(
                        old(self).paths(),
                        old(self).next_id() as int,
                        components(path@),
                        t,
                        0,
                    )
                    &&& final(self).paths().contains_key(join(components(path@)))
                    &&& r matches Ok(id) && id == final(self).paths()[join(components(path@))].0
                },
            },
    {
        proof {
            lemma_entry_seq(self.entry_views());
        }
        let segs = split_path(path);
        let ghost cs = components(path@);
        if segs.len() == 0 {
            return Err(String::from_str("Empty path"));
        }
        if self.find(path).is_some() {
            let mut m = String::from_str("Path already exists: ");
            m.append(path);
            return Err(m);
        }
        proof {
            lemma_comp_state_len(path@);
        }
        let ghost target = add_prefixes(self.paths(), self.next_resolver_id as int, cs, t, 0);
        let ghost start_next = self.next_resolver_id as int;
        let n = segs.len();
        let mut current = String::new();
        let mut current_id: u64 = 0;
        let mut i: usize = 0;
        proof { reveal_strlit("."); }
        assert(seg_views(path@, segs@).take(0) =~= Seq::<Seq<char>>::empty());
        while i < n
            invariant
                self.wf(),
                self.namespace_views() == old(self).namespace_views(),
                self.table_views() == old(self).table_views(),
                cs == seg_views(path@, segs@),
                n == cs.len(),
                n <= path@.len(),
                forall|q: int| 0 <= q < segs@.len() ==> (#[trigger] segs@[q]).0 <= segs@[q].1 <= path@.len(),
                i <= n,
                current@ == join(cs.take(i as int)),
                start_next <= self.next_resolver_id <= start_next + i,
                start_next + path@.len() < u64::MAX,
                target == add_prefixes(self.paths(), self.next_resolver_id as int, cs, t, i as int),
                i > 0 ==> self.paths().contains_key(current@) && self.paths()[current@].0 == current_id,
            decreases n - i,
        {
            proof { reveal_strlit("."); }
            if i > 0 {
                current.append(".");
            }
            let (a, b) = segs[i];
            current.append(path.substring_char(a, b));
            proof {
                assert(cs[i as int] == path@.subrange(a as int, b as int));
                assert(cs.take(i + 1).drop_last() =~= cs.take(i as int));
                if i == 0 {
                    assert(current@ =~= cs.take(1)[0]);
                }
                lemma_entry_seq(self.entry_views());
            }
            let ghost m0 = self.paths();
            let ghost next0 = self.next_resolver_id as int;
            assert(target == add_prefixes(m0, next0, cs, t, i as int));
            assert(join(cs.take(i + 1)) == current@);
            match self.find(current.as_str()) {
                Some(idx) => {
                    assert(self.entry_views()[idx as int].1 == (self.entries@[idx as int].id, self.entries@[idx as int].object_type));
                    current_id = self.entries[idx].id;
                },
                None => {
                    let id = self.next_resolver_id;
                    let ty = if i + 1 == n { t } else { ObjectType::Namespace };
                    let ghost es = self.entry_views();
                    self.entries.push(PathEntry { path: current.clone(), id, object_type: ty });
                    self.next_resolver_id = id + 1;
                    current_id = id;
                    proof {
                        let es2 = self.entry_views();
                        assert(es2 =~= es.push((current@, (id, ty))));
                        assert(es2.drop_last() =~= es);
                        assert(paths_unique(es2)) by {
                            assert forall|x: int, y: int| 0 <= x < y < es2.len() implies (#[trigger] es2[x]).0 != (#[trigger] es2[y]).0 by {
                                if y == es.len() {
                                    assert(es2[x] == es[x]);
                                } else {
                                    assert(es2[x] == es[x] && es2[y] == es[y]);
                                }
                            }
                        }
                        assert(self.paths() == m0.insert(current@, (id, ty)));
                    }
                },
            }
            i = i + 1;
        }
        assert(cs.take(n as int) =~= cs);
        Ok(current_id)
    }

    /// Every path that starts with `prefix` (every path, without one) with the
    /// type of its object, sorted by path.
    #[verifier::rlimit(80)]
    pub fn list_objects(&self, prefix: Option<&str>) -> (r: Vec<(String, ObjectType)>)
        requires
            self.wf(),
        ensures
            listing_sorted(r@),
            forall|a: int|
                0 <= a < r@.len() ==> self.paths().contains_key((#[trigger] r@[a]).0@) && admitted(opt_text(prefix), r@[a].0@)
                    && self.paths()[r@[a].0@].1 == r@[a].1,
            forall|k: Seq<char>|
                #[trigger] self.paths().contains_key(k) && admitted(opt_text(prefix), k) ==> exists|a: int|
                    0 <= a < r@.len() && r@[a].0@ == k,
    {
        proof {
            lemma_entry_seq(self.entry_views());
        }
        let ghost es = self.entry_views();
        let mut out: Vec<(String, ObjectType)> = Vec::new();
        let ghost mut src: Seq<int> = Seq::empty();
        let mut j: usize = 0;
        while j < self.entries.len()
            invariant
                es == self.entry_views(),
                paths_unique(es),
                j <= es.len(),
                listing_sorted(out@),
                src.len() == out@.len(),
                forall|a: int| 0 <= a < src.len() ==> 0 <= #[trigger] src[a] < j && es[src[a]].0 == out@[a].0@
                    && es[src[a]].1.1 == out@[a].1 && admitted(opt_text(prefix), es[src[a]].0),
                forall|q: int| 0 <= q < j && admitted(opt_text(prefix), (#[trigger] es[q]).0) ==> exists|a: int|
                    0 <= a < src.len() && src[a] == q,
            decreases es.len() - j,
        {
            let e = &self.entries[j];
            assert(es[j as int] == (e.path@, (e.id, e.object_type)));
            let keep = match prefix {
                Some(p) => str_starts_with(e.path.as_str(), p),
                None => true,
            };
            if keep {
                let ghost o = out@;
                let x = (e.path.clone(), e.object_type);
                assert forall|a: int| 0 <= a < o.len() implies (#[trigger] o[a]).0@ != x.0@ by {
                    assert(es[src[a]].0 != es[j as int].0);
                }
                let pos = insert_sorted(&mut out, x);
                proof {
                    let src0 = src;
                    src = src.insert(pos as int, j as int);
                    assert forall|a: int| 0 <= a < src.len() implies 0 <= #[trigger] src[a] < j + 1 && es[src[a]].0 == out@[a].0@
                        && es[src[a]].1.1 == out@[a].1 && admitted(opt_text(prefix), es[src[a]].0) by {
                        if a < pos {
                            assert(src[a] == src0[a] && out@[a] == o[a]);
                        } else if a > pos {
                            assert(src[a] == src0[a - 1] && out@[a] == o[a - 1]);
                        }
                    }
                    assert forall|q: int| 0 <= q < j + 1 && admitted(opt_text(prefix), (#[trigger] es[q]).0) implies exists|a: int|
                        0 <= a < src.len() && src[a] == q by {
                        if q == j {
                            assert(src[pos as int] == q);
                        } else {
                            let a = choose|a: int| 0 <= a < src0.len() && src0[a] == q;
                            if a < pos {
                                assert(src[a] == q);
                            } else {
                                assert(src[a + 1] == q);
                            }
                        }
                    }
                }
            } else {
                assert forall|q: int| 0 <= q < j + 1 && admitted(opt_text(prefix), (#[trigger] es[q]).0) implies exists|a: int|
                    0 <= a < src.len() && src[a] == q by {
                    if q == j {
                        assert(false);
                    }
                }
            }
            j = j + 1;
        }
        proof {
            assert forall|a: int|
                0 <= a < out@.len() implies self.paths().contains_key((#[trigger] out@[a]).0@) && admitted(opt_text(prefix), out@[a].0@)
                    && self.paths()[out@[a].0@].1 == out@[a].1 by {
                assert(self.paths()[es[src[a]].0] == es[src[a]].1);
            }
            assert forall|k: Seq<char>|
                #[trigger] self.paths().contains_key(k) && admitted(opt_text(prefix), k) implies exists|a: int| 0 <= a < out@.len() && out@[a].0@ == k by {
                let q = choose|q: int| 0 <= q < es.len() && es[q].0 == k;
                let a = choose|a: int| 0 <= a < src.len() && src[a] == q;
                assert(out@[a].0@ == k);
            }
        }
        out
    }

    /// Adds the namespace `namespace` under `path` (under the root when `path`
    /// is empty), with its path in the resolver and its metadata, created now.
    /// Refused as `add_path` refuses the namespace's full path.
    pub fn add_namespace(&mut self, path: &str, namespace: NamespaceConfig) -> (r: Result<u64, String>)
        requires
            old(self).wf(),
            old(self).next_id() + path@.len() + namespace.name@.len() + 1 < u64::MAX,
        ensures
            final(self).wf(),
            final(self).table_views() == old(self).table_views(),
            match add_refusal(old(self).paths(), full_path(path@, namespace.name@)) {
                Some(msg) => (r matches Err(e) && e@ == msg) && final(self).paths() == old(self).paths()
                    && final(self).next_id() == old(self).next_id()
                    && final(self).namespace_views() == old(self).namespace_views(),
                None => {
                    let cs = components(full_path(path@, namespace.name@));
                    &&& (final(self).paths(), final(self).next_id() as int) == add_prefixes(
                        old(self).paths(),
                        old(self).next_id() as int,
                        cs,
                        ObjectType::Namespace,
                        0,
                    )
                    &&& r matches Ok(id) && id == final(self).paths()[join(cs)].0
                        && final(self).namespace_views() == record_namespace(
                        old(self).namespace_views(),
                        (id, namespace.name@, full_path(path@, namespace.name@)),
                    )
                },
            },
    {
        let full = make_full_path(path, namespace.name.as_str());
        let id = match self.add_path(full.as_str(), ObjectType::Namespace) {
            Ok(id) => id,
            Err(e) => return Err(e),
        };
        let now = Timestamp::now();
        let meta = NamespaceMetadata { id, name: namespace.name, path: full, created_at: now, last_modified: now };
        let ghost before = self.namespace_views();
        let ghost x = (meta.id, meta.name@, meta.path@);
        match self.namespace_position(id) {
            Some(i) => {
                self.namespaces.set(i, meta);
                assert(self.namespace_views() =~= before.update(i as int, x));
                proof {
                    assert(before[i as int].0 == x.0 && forall|q: int| 0 <= q < i ==> before[q].0 != x.0);
                    let c = choose|c: int| 0 <= c < before.len() && #[trigger] before[c].0 == x.0 && forall|q: int| 0 <= q < c ==> before[q].0 != x.0;
                    if c < i {
                        assert(before[c].0 != x.0);
                    } else if c > i {
                        assert(before[i as int].0 != x.0);
                    }
                }
                return Ok(id);
            },
            None => {},
        }
        self.namespaces.push(meta);
        assert(self.namespace_views() =~= before.push(x));
        Ok(id)
    }

    /// Adds the table `table` under `path` (under the root when `path` is
    /// empty), with its path in the resolver and its metadata, created now.
    /// Refused as `add_path` refuses the table's full path.
    pub fn add_table(&mut self, path: &str, table: TableConfig) -> (r: Result<u64, String>)
        requires
            old(self).wf(),
            old(self).next_id() + path@.len() + table.name@.len() + 1 < u64::MAX,
        ensures
            final(self).wf(),
            final(self).namespace_views() == old(self).namespace_views(),
            match add_refusal(old(self).paths(), full_path(path@, table.name@)) {
                Some(msg) => (r matches Err(e) && e@ == msg) && final(self).paths() == old(self).paths()
                    && final(self).next_id() == old(self).next_id() && final(self).table_views() == old(self).table_views(),
                None => {
                    let cs = components(full_path(path@, table.name@));
                    let counts = match table.sharding_config {
                        TableSharding::Single => (1u32, 1usize),
                        TableSharding::Multiple { shard_count, replication_factor, .. } => (shard_count, replication_factor),
                    };
                    &&& (final(self).paths(), final(self).next_id() as int) == add_prefixes(
                        old(self).paths(),
                        old(self).next_id() as int,
                        cs,
                        ObjectType::Table,
                        0,
                    )
                    &&& r matches Ok(id) && id == final(self).paths()[join(cs)].0
                        && final(self).table_views() == record_table(
                        old(self).table_views(),
                        (id, table.name@, full_path(path@, table.name@), counts.0, counts.1),
                    )
                },
            },
    {
        let full = make_full_path(path, table.name.as_str());
        let id = match self.add_path(full.as_str(), ObjectType::Table) {
            Ok(id) => id,
            Err(e) => return Err(e),
        };
        let now = Timestamp::now();
        let (shard_count, replication_factor) = sharding_counts(&table.sharding_config);
        let meta = TableMetadata {
            id,
            name: table.name,
            path: full,
            created_at: now,
            engine_type: table.engine_type,
            last_modified: now,
            shard_count,
            replication_factor,
        };
        let ghost before = self.table_views();
        let ghost x = (meta.id, meta.name@, meta.path@, meta.shard_count, meta.replication_factor);
        match self.table_position(id) {
            Some(i) => {
                self.tables.set(i, meta);
                assert(self.table_views() =~= before.update(i as int, x));
                proof {
                    assert(before[i as int].0 == x.0 && forall|q: int| 0 <= q < i ==> before[q].0 != x.0);
                    let c = choose|c: int| 0 <= c < before.len() && #[trigger] before[c].0 == x.0 && forall|q: int| 0 <= q < c ==> before[q].0 != x.0;
                    if c < i {
                        assert(before[c].0 != x.0);
                    } else if c > i {
                        assert(before[i as int].0 != x.0);
                    }
                }
                return Ok(id);
            },
            None => {},
        }
        self.tables.push(meta);
        assert(self.table_views() =~= before.push(x));
        Ok(id)
    }

    /// Position of the namespace with id `id`: the first, where ids repeat.
    fn namespace_position(&self, id: u64) -> (r: Option<usize>)
        ensures
            match r {
                Some(i) => i < self.namespaces@.len() && self.namespace_views()[i as int].0 == id && forall|q: int|
                    0 <= q < i ==> (#[trigger] self.namespace_views()[q]).0 != id,
                None => forall|q: int| 0 <= q < self.namespace_views().len() ==> (#[trigger] self.namespace_views()[q]).0 != id,
            },
    {
        let mut i: usize = 0;
        while i < self.namespaces.len()
            invariant
                i <= self.namespaces@.len(),
                forall|q: int| 0 <= q < i ==> (#[trigger] self.namespace_views()[q]).0 != id,
            decreases self.namespaces@.len() - i,
        {
            assert(self.namespace_views()[i as int].0 == self.namespaces@[i as int].id);
            if self.namespaces[i].id == id {
                return Some(i);
            }
            i = i + 1;
        }
        None
    }

    /// Position of the table with id `id`: the first, where ids repeat.
    fn table_position(&self, id: u64) -> (r: Option<usize>)
        ensures
            match r {
                Some(i) => i < self.tables@.len() && self.table_views()[i as int].0 == id && forall|q: int|
                    0 <= q < i ==> (#[trigger] self.table_views()[q]).0 != id,
                None => forall|q: int| 0 <= q < self.table_views().len() ==> (#[trigger] self.table_views()[q]).0 != id,
            },
    {
        let mut i: usize = 0;
        while i < self.tables.len()
            invariant
                i <= self.tables@.len(),
                forall|q: int| 0 <= q < i ==> (#[trigger] self.table_views()[q]).0 != id,
            decreases self.tables@.len() - i,
        {
            assert(self.table_views()[i as int].0 == self.tables@[i as int].id);
            if self.tables[i].id == id {
                return Some(i);
            }
            i = i + 1;
        }
        None
    }

    /// The metadata of the namespace with id `id`, if one is recorded.
    pub fn get_namespace_metadata(&self, id: u64) -> (r: Option<&NamespaceMetadata>)
        ensures
            match r {
                Some(m) => m.id == id && exists|i: int|
                    0 <= i < self.namespace_views().len() && #[trigger] self.namespace_views()[i] == (m.id, m.name@, m.path@),
                None => forall|i: int| 0 <= i < self.namespace_views().len() ==> (#[trigger] self.namespace_views()[i]).0 != id,
            },
    {
        let mut i: usize = 0;
        while i < self.namespaces.len()
            invariant
                i <= self.namespaces@.len(),
                forall|q: int| 0 <= q < i ==> (#[trigger] self.namespace_views()[q]).0 != id,
            decreases self.namespaces@.len() - i,
        {
            assert(self.namespace_views()[i as int].0 == self.namespaces@[i as int].id);
            if self.namespaces[i].id == id {
                let m = &self.namespaces[i];
                assert(self.namespace_views()[i as int] == (m.id, m.name@, m.path@));
                return Some(m);
            }
            i = i + 1;
        }
        None
    }

    /// The metadata of the table with id `id`, if one is recorded.
    pub fn get_table_metadata(&self, id: u64) -> (r: Option<&TableMetadata>)
        ensures
            match r {
                Some(m) => m.id == id && exists|i: int|
                    0 <= i < self.table_views().len() && #[trigger] self.table_views()[i] == (
                        m.id,
                        m.name@,
                        m.path@,
                        m.shard_count,
                        m.replication_factor,
                    ),
                None => forall|i: int| 0 <= i < self.table_views().len() ==> (#[trigger] self.table_views()[i]).0 != id,
            },
    {
        let mut i: usize = 0;
        while i < self.tables.len()
            invariant
                i <= self.tables@.len(),
                forall|q: int| 0 <= q < i ==> (#[trigger] self.table_views()[q]).0 != id,
            decreases self.tables@.len() - i,
        {
            assert(self.table_views()[i as int].0 == self.tables@[i as int].id);
            if self.tables[i].id == id {
                let m = &self.tables[i];
                assert(self.table_views()[i as int] == (m.id, m.name@, m.path@, m.shard_count, m.replication_factor));
                return Some(m);
            }
            i = i + 1;
        }
        None
    }
}

} // verus!
