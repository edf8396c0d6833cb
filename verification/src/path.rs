//! Unix paths as byte strings.
//!
//! A path is the sequence of its bytes. What two paths have to do with each
//! other is decided on their components, so that `/a//b/`, `/a/./b` and `/a/b`
//! are one path and `/ab` does not lie below `/a`.
use vstd::prelude::*;

verus! {

/// The path separator.
pub const SEPARATOR: u8 = 0x2f;

/// The byte of a `.`.
pub const DOT: u8 = 0x2e;

/// The contents of a list of byte strings.
pub open spec fn all_bytes(list: Seq<Vec<u8>>) -> Seq<Seq<u8>> {
    Seq::new(list.len(), |i: int| list[i]@)
}

/// What lies between the separators of `path`, empty pieces included: there is
/// always one piece more than there are separators.
pub open spec fn pieces(path: Seq<u8>) -> Seq<Seq<u8>>
    decreases path.len(),
{
    if path.len() == 0 {
        seq![Seq::empty()]
    } else {
        let before = pieces(path.drop_last());
        if path.last() == SEPARATOR {
            before.push(Seq::empty())
        } else {
            before.drop_last().push(before.last().push(path.last()))
        }
    }
}

/// Whether the piece at position `at` names something: empty pieces never do,
/// and a lone `.` only does at the very start of a relative path.
pub open spec fn is_named(piece: Seq<u8>, at: int) -> bool {
    piece.len() != 0 && (at == 0 || piece != seq![DOT])
}

/// The pieces that name something, in order.
pub open spec fn named(list: Seq<Seq<u8>>) -> Seq<Seq<u8>>
    decreases list.len(),
{
    if list.len() == 0 {
        Seq::empty()
    } else {
        let before = named(list.drop_last());
        if is_named(list.last(), list.len() - 1) {
            before.push(list.last())
        } else {
            before
        }
    }
}

/// An absolute path starts with the separator.
pub open spec fn absolute(path: Seq<u8>) -> bool {
    path.len() > 0 && path[0] == SEPARATOR
}

/// The component that an absolute path starts with.
pub open spec fn root_part(path: Seq<u8>) -> Seq<Seq<u8>> {
    if absolute(path) {
        seq![seq![SEPARATOR]]
    } else {
        Seq::empty()
    }
}

/// The components of `path`: the root where it is absolute, then its named
/// pieces.
pub open spec fn components(path: Seq<u8>) -> Seq<Seq<u8>> {
    root_part(path) + named(pieces(path))
}

/// Whether `path` is `base` or lies below it.
pub open spec fn below(path: Seq<u8>, base: Seq<u8>) -> bool {
    components(base).is_prefix_of(components(path))
}

/// Whether two paths have the same components.
pub open spec fn same(left: Seq<u8>, right: Seq<u8>) -> bool {
    components(left) == components(right)
}

/// Whether `path` is the root of the filesystem.
pub open spec fn root(path: Seq<u8>) -> bool {
    components(path) == seq![seq![SEPARATOR]]
}

/// `path` as seen from the directory `base`: an absolute path stands for
/// itself.
pub open spec fn joined(base: Seq<u8>, path: Seq<u8>) -> Seq<u8> {
    if absolute(path) {
        path
    } else if base.len() == 0 || base.last() == SEPARATOR {
        base + path
    } else {
        base.push(SEPARATOR) + path
    }
}

/// Whether two byte strings are equal.
pub fn same_bytes(left: &[u8], right: &[u8]) -> (equal: bool)
    ensures
        equal == (left@ == right@),
{
    if left.len() != right.len() {
        return false;
    }
    let mut i: usize = 0;
    while i < left.len()
        invariant
            left@.len() == right@.len(),
            i <= left@.len(),
            forall|j: int| 0 <= j < i ==> left@[j] == right@[j],
        decreases left@.len() - i,
    {
        if left[i] != right[i] {
            return false;
        }
        i += 1;
    }
    assert(left@ =~= right@);
    true
}

/// Adds a finished piece to the components where it names something.
fn push_named(list: &mut Vec<Vec<u8>>, piece: Vec<u8>, first: bool)
    ensures
        all_bytes(final(list)@) == if is_named(piece@, if first { 0 } else { 1 }) {
            all_bytes(old(list)@).push(piece@)
        } else {
            all_bytes(old(list)@)
        },
{
    let lone_dot: bool = piece.len() == 1 && piece[0] == DOT;
    assert(lone_dot == (piece@ == seq![DOT])) by {
        if lone_dot {
            assert(piece@ =~= seq![DOT]);
        }
    }
    if piece.len() != 0 && (first || !lone_dot) {
        list.push(piece);
        assert(all_bytes(list@) =~= all_bytes(old(list)@).push(piece@));
    }
}

/// Splits a path into its components.
pub fn split(path: &[u8]) -> (list: Vec<Vec<u8>>)
    ensures
        all_bytes(list@) == components(path@),
{
    let mut list: Vec<Vec<u8>> = Vec::new();
    if is_absolute(path) {
        let mut start: Vec<u8> = Vec::new();
        start.push(SEPARATOR);
        assert(start@ =~= seq![SEPARATOR]);
        list.push(start);
    }
    assert(all_bytes(list@) =~= root_part(path@));
    let mut piece: Vec<u8> = Vec::new();
    let mut first: bool = true;
    let mut i: usize = 0;
    proof {
        let start = path@.take(0);
        assert(piece@ =~= Seq::<u8>::empty());
        assert(pieces(start) =~= seq![piece@]);
        assert(pieces(start).drop_last() =~= Seq::<Seq<u8>>::empty());
        assert(all_bytes(list@) =~= root_part(path@) + named(pieces(start).drop_last()));
    }
    while i < path.len()
        invariant
            i <= path@.len(),
            pieces(path@.take(i as int)).len() > 0,
            first == (pieces(path@.take(i as int)).len() == 1),
            piece@ == pieces(path@.take(i as int)).last(),
            all_bytes(list@) == root_part(path@) + named(pieces(path@.take(i as int)).drop_last()),
        decreases path@.len() - i,
    {
        let ghost here = path@.take(i as int);
        let ghost next = path@.take(i + 1);
        proof {
            assert(next.drop_last() =~= here);
            assert(next.last() == path@[i as int]);
        }
        if path[i] == SEPARATOR {
            push_named(&mut list, piece, first);
            proof {
                let done = pieces(here);
                assert(pieces(next).drop_last() =~= done);
                assert(all_bytes(list@) =~= root_part(path@) + named(done));
            }
            piece = Vec::new();
            first = false;
            assert(piece@ =~= Seq::<u8>::empty());
        } else {
            piece.push(path[i]);
            assert(pieces(next).drop_last() =~= pieces(here).drop_last());
        }
        i += 1;
    }
    push_named(&mut list, piece, first);
    proof {
        assert(path@.take(i as int) =~= path@);
        assert(all_bytes(list@) =~= root_part(path@) + named(pieces(path@)));
    }
    list
}

/// Whether the path starts at the root.
pub fn is_absolute(path: &[u8]) -> (yes: bool)
    ensures
        yes == absolute(path@),
{
    path.len() > 0 && path[0] == SEPARATOR
}

/// Whether the first list is the beginning of the second one.
fn is_prefix(front: &Vec<Vec<u8>>, whole: &Vec<Vec<u8>>) -> (yes: bool)
    ensures
        yes == all_bytes(front@).is_prefix_of(all_bytes(whole@)),
{
    if front.len() > whole.len() {
        return false;
    }
    let ghost a = all_bytes(front@);
    let ghost b = all_bytes(whole@);
    let mut i: usize = 0;
    while i < front.len()
        invariant
            front@.len() <= whole@.len(),
            a == all_bytes(front@),
            b == all_bytes(whole@),
            i <= front@.len(),
            forall|j: int| 0 <= j < i ==> a[j] == b[j],
        decreases front@.len() - i,
    {
        if !same_bytes(front[i].as_slice(), whole[i].as_slice()) {
            assert(a[i as int] != b.subrange(0, a.len() as int)[i as int]);
            return false;
        }
        i += 1;
    }
    assert(a =~= b.subrange(0, a.len() as int));
    true
}

/// Whether `path` is `base` or lies below it, component by component.
pub fn starts_with(path: &[u8], base: &[u8]) -> (yes: bool)
    ensures
        yes == below(path@, base@),
{
    let whole: Vec<Vec<u8>> = split(path);
    let front: Vec<Vec<u8>> = split(base);
    is_prefix(&front, &whole)
}

/// Whether two paths have the same components.
pub fn same_path(left: &[u8], right: &[u8]) -> (equal: bool)
    ensures
        equal == same(left@, right@),
{
    let a: Vec<Vec<u8>> = split(left);
    let b: Vec<Vec<u8>> = split(right);
    let equal: bool = a.len() == b.len() && is_prefix(&a, &b);
    proof {
        let x = all_bytes(a@);
        let y = all_bytes(b@);
        if x.len() == y.len() {
            assert(y.subrange(0, x.len() as int) =~= y);
            assert(x.is_prefix_of(y) == (x == y));
        }
    }
    equal
}

/// Whether the path is the root of the filesystem.
pub fn is_root(path: &[u8]) -> (yes: bool)
    ensures
        yes == root(path@),
{
    let list: Vec<Vec<u8>> = split(path);
    let ghost parts = all_bytes(list@);
    let yes: bool = list.len() == 1 && is_absolute(path);
    proof {
        if yes {
            assert(parts[0] == seq![SEPARATOR]);
            assert(parts =~= seq![seq![SEPARATOR]]);
        } else if root(path@) {
            assert(parts.len() == 1);
            lemma_no_separator(path@);
            assert(named(pieces(path@)) =~= parts);
            assert(named(pieces(path@))[0] == seq![SEPARATOR]);
            assert(seq![SEPARATOR].contains(SEPARATOR)) by {
                assert(seq![SEPARATOR][0] == SEPARATOR);
            }
        }
    }
    yes
}

/// Appends `path` to the directory `base`; an absolute `path` replaces it.
pub fn join(base: &[u8], path: &[u8]) -> (whole: Vec<u8>)
    ensures
        whole@ == joined(base@, path@),
{
    if is_absolute(path) {
        return to_bytes(path);
    }
    let mut whole: Vec<u8> = to_bytes(base);
    if base.len() > 0 && base[base.len() - 1] != SEPARATOR {
        whole.push(SEPARATOR);
    }
    let mut i: usize = 0;
    let ghost front = whole@;
    while i < path.len()
        invariant
            i <= path@.len(),
            whole@ == front + path@.take(i as int),
        decreases path@.len() - i,
    {
        whole.push(path[i]);
        assert(path@.take(i + 1) =~= path@.take(i as int).push(path@[i as int]));
        i += 1;
        assert(whole@ =~= front + path@.take(i as int));
    }
    assert(path@.take(i as int) =~= path@);
    whole
}

/// An owned copy of a byte string.
pub fn to_bytes(bytes: &[u8]) -> (copy: Vec<u8>)
    ensures
        copy@ == bytes@,
{
    let mut copy: Vec<u8> = Vec::new();
    let mut i: usize = 0;
    while i < bytes.len()
        invariant
            i <= bytes@.len(),
            copy@ == bytes@.take(i as int),
        decreases bytes@.len() - i,
    {
        copy.push(bytes[i]);
        i += 1;
        assert(copy@ =~= bytes@.take(i as int));
    }
    assert(bytes@.take(i as int) =~= bytes@);
    copy
}

proof fn lemma_no_separator_in_pieces(path: Seq<u8>)
    ensures
        pieces(path).len() > 0,
        forall|i: int| 0 <= i < pieces(path).len() ==> !(#[trigger] pieces(path)[i]).contains(SEPARATOR),
    decreases path.len(),
{
    if path.len() > 0 {
        lemma_no_separator_in_pieces(path.drop_last());
        let before = pieces(path.drop_last());
        if path.last() != SEPARATOR {
            let grown = before.last().push(path.last());
            if grown.contains(SEPARATOR) {
                let at = choose|at: int| 0 <= at < grown.len() && grown[at] == SEPARATOR;
                assert(before.last()[at] == SEPARATOR);
                assert(before.last().contains(SEPARATOR));
            }
        }
    }
}

proof fn lemma_named_from(list: Seq<Seq<u8>>)
    ensures
        forall|i: int| 0 <= i < named(list).len() ==> list.contains(#[trigger] named(list)[i]),
    decreases list.len(),
{
    if list.len() > 0 {
        lemma_named_from(list.drop_last());
        assert forall|i: int| 0 <= i < named(list).len() implies list.contains(
            #[trigger] named(list)[i],
        ) by {
            let before = named(list.drop_last());
            if i < before.len() {
                let at = choose|at: int|
                    0 <= at < list.drop_last().len() && list.drop_last()[at] == before[i];
                assert(list.drop_last().contains(before[i]));
                assert(list[at] == named(list)[i]);
            } else {
                assert(list[list.len() - 1] == named(list)[i]);
            }
        }
    }
}

/// No named piece holds a separator.
pub proof fn lemma_no_separator(path: Seq<u8>)
    ensures
        forall|i: int|
            0 <= i < named(pieces(path)).len() ==> !(#[trigger] named(pieces(path))[i]).contains(
                SEPARATOR,
            ),
{
    lemma_no_separator_in_pieces(path);
    lemma_named_from(pieces(path));
    assert forall|i: int| 0 <= i < named(pieces(path)).len() implies !(#[trigger] named(
        pieces(path),
    )[i]).contains(SEPARATOR) by {
        let piece = named(pieces(path))[i];
        assert(pieces(path).contains(piece));
        let at = choose|at: int| 0 <= at < pieces(path).len() && pieces(path)[at] == piece;
        assert(!pieces(path)[at].contains(SEPARATOR));
    }
}

} // verus!
