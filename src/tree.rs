use crate::der_parser::{owned_view, OwnedObject, OwnedValue, SpecObject, SpecValue, TagClass};
use vstd::prelude::*;

verus! {

/// The name of a universal tag number that the explorer knows.
pub open spec fn spec_tag_name(class: TagClass, number: u32) -> Option<Seq<char>> {
    if class != TagClass::Universal {
        None
    } else if number == 1 {
        Some("BOOLEAN"@)
    } else if number == 2 {
        Some("INTEGER"@)
    } else if number == 3 {
        Some("BIT STRING"@)
    } else if number == 4 {
        Some("OCTET STRING"@)
    } else if number == 5 {
        Some("NULL"@)
    } else if number == 6 {
        Some("OBJECT IDENTIFIER"@)
    } else if number == 10 {
        Some("ENUMERATED"@)
    } else if number == 16 {
        Some("SEQUENCE"@)
    } else if number == 17 {
        Some("SET"@)
    } else if number == 19 {
        Some("PrintableString"@)
    } else if number == 20 {
        Some("T61String"@)
    } else if number == 22 {
        Some("IA5String"@)
    } else if number == 23 {
        Some("UTCTime"@)
    } else if number == 24 {
        Some("GeneralizedTime"@)
    } else {
        None
    }
}

/// The name of a universal tag, for the tags the explorer knows by name.
pub fn tag_name(class: &TagClass, number: u32) -> (r: Option<&'static str>)
    ensures
        match spec_tag_name(*class, number) {
            Some(n) => r matches Some(s) && s@ == n,
            None => r is None,
        },
{
    match class {
        TagClass::Universal => match number {
            1 => Some("BOOLEAN"),
            2 => Some("INTEGER"),
            3 => Some("BIT STRING"),
            4 => Some("OCTET STRING"),
            5 => Some("NULL"),
            6 => Some("OBJECT IDENTIFIER"),
            10 => Some("ENUMERATED"),
            16 => Some("SEQUENCE"),
            17 => Some("SET"),
            19 => Some("PrintableString"),
            20 => Some("T61String"),
            22 => Some("IA5String"),
            23 => Some("UTCTime"),
            24 => Some("GeneralizedTime"),
            _ => None,
        },
        _ => None,
    }
}

/// The child at index `i` of a constructed object.
pub open spec fn child_at(o: SpecObject, i: int) -> Option<SpecObject> {
    match o.value {
        SpecValue::Constructed(c) => if 0 <= i < c.len() {
            Some(c[i])
        } else {
            None
        },
        SpecValue::Primitive(_) => None,
    }
}

/// The node reached from `o` by following the child indices of `rest`.
pub open spec fn descend(o: SpecObject, rest: Seq<usize>) -> Option<SpecObject>
    decreases rest.len(),
{
    if rest.len() == 0 {
        Some(o)
    } else {
        match child_at(o, rest[0] as int) {
            Some(c) => descend(c, rest.drop_first()),
            None => None,
        }
    }
}

/// The node that `path` names in a forest of top-level objects: `path[0]`
/// picks the top-level object, the rest picks children from there.
pub open spec fn node_at(objs: Seq<SpecObject>, path: Seq<usize>) -> Option<SpecObject> {
    if path.len() == 0 || path[0] >= objs.len() {
        None
    } else {
        descend(objs[path[0] as int], path.drop_first())
    }
}

pub open spec fn is_constructed(o: SpecObject) -> bool {
    o.value is Constructed
}

/// The paths that a list of paths holds.
pub open spec fn path_set(v: Seq<Vec<usize>>) -> Set<Seq<usize>> {
    Set::new(|p: Seq<usize>| exists|i: int| 0 <= i < v.len() && #[trigger] v[i]@ == p)
}

/// The visible rows under `o`, which sits at `p`: `o` itself, then, unless
/// `o` is collapsed, the rows of each child in order. Each row is a path
/// and whether its node is constructed.
pub open spec fn visible_from(o: SpecObject, p: Seq<usize>, collapsed: Set<Seq<usize>>) -> Seq<
    (Seq<usize>, bool),
>
    decreases o, 1nat,
{
    seq![(p, is_constructed(o))] + match o.value {
        SpecValue::Constructed(c) => if collapsed.contains(p) {
            Seq::empty()
        } else {
            proof {
                assert(decreases_to!(o => o.value));
                assert(decreases_to!(o.value => o.value->Constructed_0));
            }
            children_rows(c, p, collapsed).flatten()
        },
        SpecValue::Primitive(_) => Seq::empty(),
    }
}

/// The visible rows under each of the children `c` of the node at `p`.
pub open spec fn children_rows(c: Seq<SpecObject>, p: Seq<usize>, collapsed: Set<Seq<usize>>) -> Seq<
    Seq<(Seq<usize>, bool)>,
>
    decreases c, 0nat,
{
    proof {
        assert forall|i: int| 0 <= i < c.len() implies decreases_to!(c => c[i]) by {
            broadcast use vstd::seq::axiom_seq_index_decreases;

        }
    }
    Seq::new(
        c.len(),
        |i: int|
            if 0 <= i < c.len() {
                visible_from(c[i], p.push(i as usize), collapsed)
            } else {
                Seq::empty()
            },
    )
}

/// The visible rows of a forest, in pre-order, skipping the descendants of
/// collapsed nodes.
pub open spec fn visible_rows(objs: Seq<SpecObject>, collapsed: Set<Seq<usize>>) -> Seq<
    (Seq<usize>, bool),
> {
    Seq::new(
        objs.len(),
        |i: int| visible_from(objs[i], seq![i as usize], collapsed),
    ).flatten()
}

/// Whether two paths are the same.
pub fn same_path(a: &[usize], b: &[usize]) -> (r: bool)
    ensures
        r == (a@ == b@),
{
    if a.len() != b.len() {
        return false;
    }
    let mut i: usize = 0;
    while i < a.len()
        invariant
            a@.len() == b@.len(),
            i <= a@.len(),
            forall|j: int| 0 <= j < i ==> a@[j] == b@[j],
        decreases a@.len() - i,
    {
        if a[i] != b[i] {
            return false;
        }
        i = i + 1;
    }
    assert(a@ =~= b@);
    true
}

/// Whether a list of paths holds `p`.
pub fn contains_path(paths: &Vec<Vec<usize>>, p: &[usize]) -> (r: bool)
    ensures
        r == path_set(paths@).contains(p@),
{
    let mut i: usize = 0;
    while i < paths.len()
        invariant
            i <= paths@.len(),
            forall|j: int| 0 <= j < i ==> paths@[j]@ != p@,
        decreases paths@.len() - i,
    {
        if same_path(paths[i].as_slice(), p) {
            return true;
        }
        i = i + 1;
    }
    false
}

proof fn lemma_path_set_push(v: Seq<Vec<usize>>, x: Vec<usize>)
    ensures
        path_set(v.push(x)) == path_set(v).insert(x@),
{
    assert forall|q: Seq<usize>| path_set(v.push(x)).contains(q) implies path_set(v).insert(
        x@,
    ).contains(q) by {
        let i = choose|i: int| 0 <= i < v.len() + 1 && #[trigger] v.push(x)[i]@ == q;
        if i < v.len() {
            assert(v[i]@ == q);
        }
    }
    assert forall|q: Seq<usize>| path_set(v).insert(x@).contains(q) implies path_set(
        v.push(x),
    ).contains(q) by {
        if q == x@ {
            assert(v.push(x)[v.len() as int]@ == q);
        } else {
            let i = choose|i: int| 0 <= i < v.len() && #[trigger] v[i]@ == q;
            assert(v.push(x)[i]@ == q);
        }
    }
    assert(path_set(v.push(x)) =~= path_set(v).insert(x@));
}

/// Adds a path to a list of paths.
pub fn add_path(paths: &mut Vec<Vec<usize>>, p: Vec<usize>)
    ensures
        path_set(final(paths)@) == path_set(old(paths)@).insert(p@),
{
    proof {
        lemma_path_set_push(paths@, p);
    }
    paths.push(p);
}

/// The list of paths without any copy of `p`.
pub fn without_path(paths: &Vec<Vec<usize>>, p: &[usize]) -> (r: Vec<Vec<usize>>)
    ensures
        path_set(r@) == path_set(paths@).remove(p@),
{
    let mut r: Vec<Vec<usize>> = Vec::new();
    let mut i: usize = 0;
    assert(path_set(r@) =~= path_set(paths@.take(0)).remove(p@));
    while i < paths.len()
        invariant
            i <= paths@.len(),
            path_set(r@) == path_set(paths@.take(i as int)).remove(p@),
        decreases paths@.len() - i,
    {
        assert(paths@.take(i as int + 1) == paths@.take(i as int).push(paths@[i as int]));
        proof {
            lemma_path_set_push(paths@.take(i as int), paths@[i as int]);
        }
        if !same_path(paths[i].as_slice(), p) {
            let c = copy_path(&paths[i]);
            proof {
                lemma_path_set_push(r@, c);
            }
            r.push(c);
            assert(path_set(r@) =~= path_set(paths@.take(i as int + 1)).remove(p@));
        } else {
            assert(path_set(r@) =~= path_set(paths@.take(i as int + 1)).remove(p@));
        }
        i = i + 1;
    }
    assert(paths@.take(paths@.len() as int) =~= paths@);
    r
}

/// Resolves `path` against a forest of top-level objects.
pub fn get_object_by_path<'a>(objects: &'a [OwnedObject], path: &[usize]) -> (r: Option<
    &'a OwnedObject,
>)
    ensures
        match node_at(owned_view(objects@), path@) {
            Some(o) => r matches Some(x) && x@ == o,
            None => r is None,
        },
{
    if path.len() == 0 || path[0] >= objects.len() {
        return None;
    }
    let mut current: &OwnedObject = &objects[path[0]];
    let mut i: usize = 1;
    assert(path@.drop_first() =~= path@.subrange(1, path@.len() as int));
    while i < path.len()
        invariant
            1 <= i <= path@.len(),
            node_at(owned_view(objects@), path@) == descend(
                current@,
                path@.subrange(i as int, path@.len() as int),
            ),
        decreases path@.len() - i,
    {
        let ghost rest = path@.subrange(i as int, path@.len() as int);
        assert(rest.drop_first() =~= path@.subrange(i + 1, path@.len() as int));
        match &current.value {
            OwnedValue::Constructed(children) => {
                if path[i] < children.len() {
                    current = &children[path[i]];
                } else {
                    return None;
                }
            },
            OwnedValue::Primitive(_) => {
                return None;
            },
        }
        i = i + 1;
    }
    Some(current)
}


/// The path of the next sibling of the node at `p`.
pub open spec fn next_sibling(p: Seq<usize>) -> Seq<usize> {
    p.drop_last().push((p.last() + 1) as usize)
}

/// The path of the previous sibling of the node at `p`.
pub open spec fn prev_sibling(p: Seq<usize>) -> Seq<usize> {
    p.drop_last().push((p.last() - 1) as usize)
}

/// Whether the node at `p` is constructed, has children, and is expanded.
pub open spec fn can_descend(
    objs: Seq<SpecObject>,
    collapsed: Set<Seq<usize>>,
    p: Seq<usize>,
) -> bool {
    match node_at(objs, p) {
        Some(o) => o.value is Constructed && o.value->Constructed_0.len() > 0 && !collapsed.contains(
            p,
        ),
        None => false,
    }
}

/// The first next sibling found walking up from `p`: of `p` itself, else of
/// its parent, and so on up to the top level.
pub open spec fn advance_from(objs: Seq<SpecObject>, p: Seq<usize>) -> Option<Seq<usize>>
    decreases p.len(),
{
    if p.len() == 0 {
        None
    } else if p.last() < usize::MAX && node_at(objs, next_sibling(p)) is Some {
        Some(next_sibling(p))
    } else {
        advance_from(objs, p.drop_last())
    }
}

/// The selection after a move down: into the first child of an expanded
/// constructed node, else to the next sibling found walking up; unchanged
/// at the last visible node.
pub open spec fn path_after_down(
    objs: Seq<SpecObject>,
    collapsed: Set<Seq<usize>>,
    p: Seq<usize>,
) -> Seq<usize> {
    if can_descend(objs, collapsed, p) {
        p.push(0)
    } else {
        match advance_from(objs, p) {
            Some(q) => q,
            None => p,
        }
    }
}

/// The deepest last visible descendant of `o`, which sits at `p`.
pub open spec fn last_visible(o: SpecObject, p: Seq<usize>, collapsed: Set<Seq<usize>>) -> Seq<
    usize,
>
    decreases o,
{
    match o.value {
        SpecValue::Constructed(c) => if c.len() > 0 && !collapsed.contains(p) {
            proof {
                broadcast use vstd::seq::axiom_seq_index_decreases;

                assert(decreases_to!(o => o.value));
                assert(decreases_to!(o.value => o.value->Constructed_0));
                assert(decreases_to!(c => c[c.len() - 1]));
            }
            last_visible(c.last(), p.push((c.len() - 1) as usize), collapsed)
        } else {
            p
        },
        SpecValue::Primitive(_) => p,
    }
}

/// The selection after a move up: to the last visible node under the
/// previous sibling, else to the parent; unchanged at a first top-level node.
pub open spec fn path_after_up(
    objs: Seq<SpecObject>,
    collapsed: Set<Seq<usize>>,
    p: Seq<usize>,
) -> Seq<usize> {
    if p.len() == 0 {
        p
    } else if p.last() > 0 {
        match node_at(objs, prev_sibling(p)) {
            Some(o) => last_visible(o, prev_sibling(p), collapsed),
            None => p,
        }
    } else if p.len() > 1 {
        p.drop_last()
    } else {
        p
    }
}

/// The collapsed set after toggling the node at `p`: removed if it was
/// collapsed, added if not; unchanged unless the node is constructed.
pub open spec fn toggled(
    objs: Seq<SpecObject>,
    collapsed: Set<Seq<usize>>,
    p: Seq<usize>,
) -> Set<Seq<usize>> {
    match node_at(objs, p) {
        Some(o) => if is_constructed(o) {
            if collapsed.contains(p) {
                collapsed.remove(p)
            } else {
                collapsed.insert(p)
            }
        } else {
            collapsed
        },
        None => collapsed,
    }
}

/// The scroll offset that brings row `idx` into a window of `height` rows
/// over `total` rows, moving the window as little as needed, and keeping it
/// from extending past the last row.
pub open spec fn scroll_for(scroll: int, idx: int, height: int, total: int) -> int {
    let s = if idx < scroll {
        idx
    } else if idx >= scroll + height {
        idx + 1 - height
    } else {
        scroll
    };
    if total <= height {
        0
    } else if s > total - height {
        total - height
    } else {
        s
    }
}

proof fn lemma_descend_push(o: SpecObject, rest: Seq<usize>, k: usize)
    ensures
        descend(o, rest.push(k)) == match descend(o, rest) {
            Some(n) => child_at(n, k as int),
            None => None,
        },
    decreases rest.len(),
{
    if rest.len() == 0 {
        assert(rest.push(k).drop_first() =~= Seq::<usize>::empty());
        assert(rest.push(k)[0] == k);
        if let Some(c) = child_at(o, k as int) {
            assert(descend(c, Seq::empty()) == Some(c));
        }
    } else {
        assert(rest.push(k).drop_first() =~= rest.drop_first().push(k));
        assert(rest.push(k)[0] == rest[0]);
        if let Some(c) = child_at(o, rest[0] as int) {
            lemma_descend_push(c, rest.drop_first(), k);
        }
    }
}

/// The node at `p` extended by `k` is the child at `k` of the node at `p`.
pub proof fn lemma_node_at_push(objs: Seq<SpecObject>, p: Seq<usize>, k: usize)
    requires
        p.len() > 0,
    ensures
        node_at(objs, p.push(k)) == match node_at(objs, p) {
            Some(n) => child_at(n, k as int),
            None => None,
        },
{
    assert(p.push(k).drop_first() =~= p.drop_first().push(k));
    if p[0] < objs.len() {
        lemma_descend_push(objs[p[0] as int], p.drop_first(), k);
    }
}

/// The parent of a node that exists exists too, with the node among its
/// children.
pub proof fn lemma_node_at_parent(objs: Seq<SpecObject>, p: Seq<usize>)
    requires
        p.len() > 1,
    ensures
        node_at(objs, p) == match node_at(objs, p.drop_last()) {
            Some(n) => child_at(n, p.last() as int),
            None => None,
        },
{
    assert(p.drop_last().push(p.last()) =~= p);
    lemma_node_at_push(objs, p.drop_last(), p.last());
}

/// A node found by walking up for a next sibling exists.
pub proof fn lemma_advance_exists(objs: Seq<SpecObject>, p: Seq<usize>)
    ensures
        advance_from(objs, p) matches Some(q) ==> node_at(objs, q) is Some,
    decreases p.len(),
{
    if p.len() > 0 {
        lemma_advance_exists(objs, p.drop_last());
    }
}

/// The last visible descendant of an existing node exists.
pub proof fn lemma_last_visible_exists(
    objs: Seq<SpecObject>,
    x: OwnedObject,
    p: Seq<usize>,
    collapsed: Set<Seq<usize>>,
)
    requires
        node_at(objs, p) == Some(x@),
    ensures
        node_at(objs, last_visible(x@, p, collapsed)) is Some,
    decreases x,
{
    if let OwnedValue::Constructed(c) = x.value {
        if c.len() > 0 && !collapsed.contains(p) {
            broadcast use vstd::std_specs::vec::axiom_vec_index_decreases;

            let k = (c.len() - 1) as usize;
            assert(decreases_to!(c => c[k as int]));
            assert(decreases_to!(x => x.value));
            assert(decreases_to!(x.value => x.value->Constructed_0));
            lemma_node_at_push(objs, p, k);
            lemma_last_visible_exists(objs, c[k as int], p.push(k), collapsed);
        }
    }
}

/// A path that ends in the number `i` on its own is the `i`-th top-level
/// object.
pub proof fn lemma_node_at_top(objs: Seq<SpecObject>, i: usize)
    ensures
        node_at(objs, seq![i]) == if i < objs.len() {
            Some(objs[i as int])
        } else {
            None::<SpecObject>
        },
{
    assert(seq![i].drop_first() =~= Seq::<usize>::empty());
}

/// A move down from a collapsed node never enters it: it goes where it
/// would go from a node without children. Once the node is expanded again
/// by a toggle, a move down from it enters its first child, if it has one.
pub proof fn lemma_collapsed_not_entered(
    objs: Seq<SpecObject>,
    collapsed: Set<Seq<usize>>,
    p: Seq<usize>,
)
    requires
        collapsed.contains(p),
    ensures
        path_after_down(objs, collapsed, p) == match advance_from(objs, p) {
            Some(q) => q,
            None => p,
        },
        node_at(objs, p) matches Some(o) && o.value is Constructed
            && o.value->Constructed_0.len() > 0 ==> path_after_down(
            objs,
            toggled(objs, collapsed, p),
            p,
        ) == p.push(0),
{
}

/// After scrolling, the window shows the row at `idx`, stays within the
/// rows, and starts at the top when all rows fit.
pub proof fn lemma_scroll_shows_row(scroll: int, idx: int, height: int, total: int)
    requires
        0 <= scroll,
        0 <= idx < total,
        0 < height,
    ensures
        0 <= scroll_for(scroll, idx, height, total) <= idx < scroll_for(
            scroll,
            idx,
            height,
            total,
        ) + height,
        total > height ==> scroll_for(scroll, idx, height, total) + height <= total,
        total <= height ==> scroll_for(scroll, idx, height, total) == 0,
{
}

/// One visible row of the flattened tree: the node's path, its depth, and
/// whether it is constructed.
#[derive(Debug)]
pub struct VisibleItem {
    pub path: Vec<usize>,
    pub depth: usize,
    pub constructed: bool,
}

impl VisibleItem {
    pub open spec fn view(&self) -> (Seq<usize>, bool) {
        (self.path@, self.constructed)
    }
}

/// The rows that a list of visible items stands for.
pub open spec fn rows_view(v: Seq<VisibleItem>) -> Seq<(Seq<usize>, bool)> {
    Seq::new(v.len(), |i: int| v[i]@)
}

/// Each item's depth is the length of its path less one.
pub open spec fn depths_wf(v: Seq<VisibleItem>) -> bool {
    forall|k: int| 0 <= k < v.len() ==> #[trigger] v[k].depth + 1 == v[k].path@.len()
}

/// The index of the last row at `p`, or 0 when no row is at `p`.
pub open spec fn row_index(rows: Seq<(Seq<usize>, bool)>, p: Seq<usize>) -> nat
    decreases rows.len(),
{
    if rows.len() == 0 {
        0
    } else if rows.last().0 == p {
        (rows.len() - 1) as nat
    } else {
        row_index(rows.drop_last(), p)
    }
}

/// Flattening one more sequence appends it.
pub proof fn lemma_flatten_step<A>(s: Seq<Seq<A>>, i: int)
    requires
        0 <= i < s.len(),
    ensures
        s.take(i + 1).flatten() == s.take(i).flatten() + s[i],
{
    s.take(i + 1).lemma_flatten_and_flatten_alt_are_equivalent();
    s.take(i).lemma_flatten_and_flatten_alt_are_equivalent();
    assert(s.take(i + 1).drop_last() =~= s.take(i));
}

pub fn copy_path(p: &Vec<usize>) -> (r: Vec<usize>)
    ensures
        r@ == p@,
{
    let mut r: Vec<usize> = Vec::new();
    let mut i: usize = 0;
    while i < p.len()
        invariant
            i <= p@.len(),
            r@ == p@.take(i as int),
        decreases p@.len() - i,
    {
        r.push(p[i]);
        i = i + 1;
        assert(r@ =~= p@.take(i as int));
    }
    assert(p@.take(p@.len() as int) =~= p@);
    r
}

fn push_visible(
    o: &OwnedObject,
    path: &mut Vec<usize>,
    collapsed: &Vec<Vec<usize>>,
    items: &mut Vec<VisibleItem>,
)
    requires
        old(path)@.len() > 0,
        depths_wf(old(items)@),
    ensures
        final(path)@ == old(path)@,
        depths_wf(final(items)@),
        rows_view(final(items)@) == rows_view(old(items)@) + visible_from(
            o@,
            old(path)@,
            path_set(collapsed@),
        ),
    decreases o,
{
    let ghost items0 = items@;
    let ghost p = path@;
    let constructed = match &o.value {
        OwnedValue::Constructed(_) => true,
        OwnedValue::Primitive(_) => false,
    };
    let is_collapsed = constructed && contains_path(collapsed, path.as_slice());
    items.push(VisibleItem { path: copy_path(path), depth: path.len() - 1, constructed });
    let ghost head = rows_view(items0) + seq![(p, is_constructed(o@))];
    assert(rows_view(items@) =~= head);
    if let OwnedValue::Constructed(children) = &o.value {
        if !is_collapsed {
            let ghost c = o@.value->Constructed_0;
            let ghost s = children_rows(c, p, path_set(collapsed@));
            assert(s.take(0).flatten() =~= Seq::<(Seq<usize>, bool)>::empty());
            let mut i: usize = 0;
            while i < children.len()
                invariant
                    o.value == OwnedValue::Constructed(*children),
                    c.len() == children@.len(),
                    s.len() == c.len(),
                    forall|j: int|
                        0 <= j < c.len() ==> #[trigger] s[j] == visible_from(
                            c[j],
                            p.push(j as usize),
                            path_set(collapsed@),
                        ),
                    c == o@.value->Constructed_0,
                    !path_set(collapsed@).contains(p),
                    forall|j: int| 0 <= j < c.len() ==> #[trigger] c[j] == children@[j]@,
                    i <= children@.len(),
                    path@ == p,
                    p.len() > 0,
                    depths_wf(items@),
                    rows_view(items@) == head + s.take(i as int).flatten(),
                decreases children@.len() - i,
            {
                proof {
                    broadcast use vstd::std_specs::vec::axiom_vec_index_decreases;

                    assert(decreases_to!(*children => children[i as int]));
                    assert(decreases_to!(o => o.value));
                    assert(decreases_to!(o.value => o.value->Constructed_0));
                    lemma_flatten_step(s, i as int);
                }
                let ghost before = rows_view(items@);
                path.push(i);
                push_visible(&children[i], path, collapsed, items);
                path.pop();
                assert(path@ =~= p);
                assert(s[i as int] == visible_from(c[i as int], p.push(i), path_set(collapsed@)));
                assert(rows_view(items@) =~= head + s.take(i as int + 1).flatten());
                i = i + 1;
            }
            assert(s.take(c.len() as int) =~= s);
            assert(rows_view(items@) =~= rows_view(items0) + visible_from(o@, p, path_set(collapsed@)));
            return;
        }
    }
    assert(visible_from(o@, p, path_set(collapsed@)) =~= seq![(p, is_constructed(o@))]);
}

/// The visible rows of a forest, in pre-order, skipping the descendants of
/// collapsed nodes.
pub fn visible_items(objects: &Vec<OwnedObject>, collapsed: &Vec<Vec<usize>>) -> (r: Vec<
    VisibleItem,
>)
    ensures
        rows_view(r@) == visible_rows(owned_view(objects@), path_set(collapsed@)),
        depths_wf(r@),
{
    let ghost objs = owned_view(objects@);
    let ghost s = Seq::new(
        objs.len(),
        |i: int| visible_from(objs[i], seq![i as usize], path_set(collapsed@)),
    );
    let mut items: Vec<VisibleItem> = Vec::new();
    let mut i: usize = 0;
    assert(s.take(0).flatten() =~= Seq::<(Seq<usize>, bool)>::empty());
    assert(rows_view(items@) =~= Seq::<(Seq<usize>, bool)>::empty());
    while i < objects.len()
        invariant
            i <= objects@.len(),
            s.len() == objects@.len(),
            objs == owned_view(objects@),
            forall|j: int|
                0 <= j < s.len() ==> #[trigger] s[j] == visible_from(
                    objs[j],
                    seq![j as usize],
                    path_set(collapsed@),
                ),
            depths_wf(items@),
            rows_view(items@) == s.take(i as int).flatten(),
        decreases objects@.len() - i,
    {
        proof {
            lemma_flatten_step(s, i as int);
        }
        let mut path: Vec<usize> = Vec::new();
        path.push(i);
        assert(path@ =~= seq![i]);
        push_visible(&objects[i], &mut path, collapsed, &mut items);
        assert(rows_view(items@) =~= s.take(i as int + 1).flatten());
        i = i + 1;
    }
    assert(s.take(objects@.len() as int) =~= s);
    assert(s =~= Seq::new(
        objs.len(),
        |i: int| visible_from(objs[i], seq![i as usize], path_set(collapsed@)),
    ));
    items
}

/// The index of the last item at `p`, or 0 when no item is at `p`.
pub fn index_of_path(items: &Vec<VisibleItem>, p: &[usize]) -> (r: usize)
    ensures
        r == row_index(rows_view(items@), p@),
        items@.len() > 0 ==> r < items@.len(),
{
    let mut r: usize = 0;
    let mut i: usize = 0;
    while i < items.len()
        invariant
            i <= items@.len(),
            r == row_index(rows_view(items@).take(i as int), p@),
            i > 0 ==> r < i,
        decreases items@.len() - i,
    {
        assert(rows_view(items@).take(i as int + 1).drop_last() =~= rows_view(items@).take(i as int));
        if same_path(items[i].path.as_slice(), p) {
            r = i;
        }
        i = i + 1;
    }
    assert(rows_view(items@).take(items@.len() as int) =~= rows_view(items@));
    r
}

} // verus!
