//! What the components of a path are, and what it is to lie below another path.
//!
//! A path is written by putting separators between names. Reading it gives the
//! names back, and three ways of writing more than that are read as if it was not
//! there: repeated separators, lone dots, and what follows the last name. Every
//! path comes to names in this way.
use crate::path::{
    absolute, all_bytes, below, components, is_named, joined, lemma_no_separator, named, pieces, root,
    root_part, same,
};
use vstd::prelude::*;

verus! {

/// Names with a separator between each two of them.
pub open spec fn written(names: Seq<Seq<u8>>) -> Seq<u8>
    decreases names.len(),
{
    if names.len() == 0 {
        Seq::empty()
    } else if names.len() == 1 {
        names[0]
    } else {
        written(names.drop_last()) + seq![0x2fu8] + names.last()
    }
}

/// Whether a text can stand between separators: it is not empty and holds none.
pub open spec fn is_text(name: Seq<u8>) -> bool {
    name.len() > 0 && forall|i: int| 0 <= i < name.len() ==> #[trigger] name[i] != 0x2fu8
}

/// Whether a text names something anywhere in a path: it is not a lone dot.
pub open spec fn is_name(name: Seq<u8>) -> bool {
    is_text(name) && name != seq![0x2eu8]
}

/// The named pieces of what is not at the start of a path.
spec fn later(list: Seq<Seq<u8>>) -> Seq<Seq<u8>>
    decreases list.len(),
{
    if list.len() == 0 {
        Seq::empty()
    } else {
        let before = later(list.drop_last());
        if is_named(list.last(), 1) {
            before.push(list.last())
        } else {
            before
        }
    }
}

proof fn lemma_pieces_some(path: Seq<u8>)
    ensures
        pieces(path).len() > 0,
    decreases path.len(),
{
    if path.len() > 0 {
        lemma_pieces_some(path.drop_last());
    }
}

proof fn lemma_pieces_split(left: Seq<u8>, right: Seq<u8>)
    ensures
        pieces(left + seq![0x2fu8] + right) == pieces(left) + pieces(right),
    decreases right.len(),
{
    let whole = left + seq![0x2fu8] + right;
    lemma_pieces_some(left);
    lemma_pieces_some(right);
    if right.len() == 0 {
        assert(whole =~= left.push(0x2fu8));
        assert(whole.drop_last() =~= left);
        assert(pieces(whole) =~= pieces(left) + pieces(right));
    } else {
        let front = right.drop_last();
        lemma_pieces_split(left, front);
        lemma_pieces_some(front);
        assert(whole.drop_last() =~= left + seq![0x2fu8] + front);
        assert(whole.last() == right.last());
        assert(pieces(whole) =~= pieces(left) + pieces(right));
    }
}

proof fn lemma_pieces_text(name: Seq<u8>)
    requires
        forall|i: int| 0 <= i < name.len() ==> #[trigger] name[i] != 0x2fu8,
    ensures
        pieces(name) == seq![name],
    decreases name.len(),
{
    if name.len() > 0 {
        let front = name.drop_last();
        assert forall|i: int| 0 <= i < front.len() implies #[trigger] front[i] != 0x2fu8 by {
            assert(front[i] == name[i]);
        }
        lemma_pieces_text(front);
        assert(name.last() == name[name.len() - 1]);
        assert(front.push(name.last()) =~= name);
        assert(pieces(name) =~= seq![name]);
    } else {
        assert(name =~= Seq::<u8>::empty());
        assert(pieces(name) =~= seq![name]);
    }
}

proof fn lemma_pieces_written(names: Seq<Seq<u8>>)
    requires
        names.len() > 0,
        forall|i: int| 0 <= i < names.len() ==> is_text(#[trigger] names[i]),
    ensures
        pieces(written(names)) == names,
    decreases names.len(),
{
    let front = names.drop_last();
    assert(is_text(names[names.len() - 1]));
    lemma_pieces_text(names.last());
    if names.len() > 1 {
        assert forall|i: int| 0 <= i < front.len() implies is_text(#[trigger] front[i]) by {
            assert(front[i] == names[i]);
        }
        lemma_pieces_written(front);
        lemma_pieces_split(written(front), names.last());
        assert(front + seq![names.last()] =~= names);
    } else {
        assert(seq![names.last()] =~= names);
    }
}

proof fn lemma_named_split(left: Seq<Seq<u8>>, right: Seq<Seq<u8>>)
    requires
        left.len() > 0,
    ensures
        named(left + right) == named(left) + later(right),
    decreases right.len(),
{
    let whole = left + right;
    if right.len() == 0 {
        assert(whole =~= left);
        assert(named(left) + later(right) =~= named(left));
    } else {
        assert(whole.drop_last() =~= left + right.drop_last());
        lemma_named_split(left, right.drop_last());
        assert(whole.last() == right.last());
        assert(named(whole) =~= named(left) + later(right));
    }
}

proof fn lemma_later_split(left: Seq<Seq<u8>>, right: Seq<Seq<u8>>)
    ensures
        later(left + right) == later(left) + later(right),
    decreases right.len(),
{
    let whole = left + right;
    if right.len() == 0 {
        assert(whole =~= left);
        assert(later(left) + later(right) =~= later(left));
    } else {
        assert(whole.drop_last() =~= left + right.drop_last());
        lemma_later_split(left, right.drop_last());
        assert(whole.last() == right.last());
        assert(later(whole) =~= later(left) + later(right));
    }
}

proof fn lemma_later_one(piece: Seq<u8>)
    ensures
        later(seq![piece]) == if piece.len() != 0 && piece != seq![0x2eu8] {
            seq![piece]
        } else {
            Seq::empty()
        },
{
    reveal_with_fuel(later, 2);
    assert(seq![piece].drop_last() =~= Seq::<Seq<u8>>::empty());
    assert(later(seq![piece]) =~= if piece.len() != 0 && piece != seq![0x2eu8] {
        seq![piece]
    } else {
        Seq::empty()
    });
}

/// What follows a separator adds its own named pieces.
proof fn lemma_components_split(left: Seq<u8>, right: Seq<u8>)
    ensures
        left.len() > 0 ==> components(left + seq![0x2fu8] + right) == components(left) + later(
            pieces(right),
        ),
        left.len() == 0 ==> components(left + seq![0x2fu8] + right) == seq![seq![0x2fu8]] + later(
            pieces(right),
        ),
{
    let whole = left + seq![0x2fu8] + right;
    lemma_pieces_split(left, right);
    lemma_pieces_some(left);
    lemma_named_split(pieces(left), pieces(right));
    if left.len() > 0 {
        assert(whole[0] == left[0]);
        assert(root_part(whole) == root_part(left));
        assert(components(whole) =~= components(left) + later(pieces(right)));
    } else {
        assert(whole[0] == 0x2fu8);
        assert(named(pieces(left)) =~= Seq::<Seq<u8>>::empty()) by {
            reveal_with_fuel(named, 2);
            assert(pieces(left) =~= seq![Seq::<u8>::empty()]);
        }
        assert(components(whole) =~= seq![seq![0x2fu8]] + later(pieces(right)));
    }
}

proof fn lemma_named_names(names: Seq<Seq<u8>>)
    requires
        names.len() > 0,
        is_text(names[0]),
        forall|i: int| 1 <= i < names.len() ==> is_name(#[trigger] names[i]),
    ensures
        named(names) == names,
    decreases names.len(),
{
    if names.len() == 1 {
        reveal_with_fuel(named, 2);
        assert(names.drop_last() =~= Seq::<Seq<u8>>::empty());
        assert(names.last() == names[0]);
        assert(named(names) =~= names);
    } else {
        let front = names.drop_last();
        assert(front[0] == names[0]);
        assert forall|i: int| 1 <= i < front.len() implies is_name(#[trigger] front[i]) by {
            assert(front[i] == names[i]);
        }
        lemma_named_names(front);
        assert(is_name(names[names.len() - 1]));
        assert(named(names) =~= names);
    }
}

proof fn lemma_later_names(names: Seq<Seq<u8>>)
    requires
        forall|i: int| 0 <= i < names.len() ==> is_name(#[trigger] names[i]),
    ensures
        later(names) == names,
    decreases names.len(),
{
    if names.len() > 0 {
        let front = names.drop_last();
        assert forall|i: int| 0 <= i < front.len() implies is_name(#[trigger] front[i]) by {
            assert(front[i] == names[i]);
        }
        lemma_later_names(front);
        assert(is_name(names[names.len() - 1]));
        assert(later(names) =~= names);
    } else {
        assert(later(names) =~= names);
    }
}

/// The components of a written absolute path are the root and the names that it
/// was written from.
pub proof fn law_absolute_path_gives_names_back(names: Seq<Seq<u8>>)
    requires
        forall|i: int| 0 <= i < names.len() ==> is_name(#[trigger] names[i]),
    ensures
        components(seq![0x2fu8] + written(names)) == seq![seq![0x2fu8]] + names,
{
    let none = Seq::<u8>::empty();
    lemma_components_split(none, written(names));
    assert(none + seq![0x2fu8] + written(names) =~= seq![0x2fu8] + written(names));
    if names.len() > 0 {
        assert forall|i: int| 0 <= i < names.len() implies is_text(#[trigger] names[i]) by {
            assert(is_name(names[i]));
        }
        lemma_pieces_written(names);
        lemma_later_names(names);
    } else {
        assert(names =~= Seq::<Seq<u8>>::empty());
        assert(pieces(written(names)) =~= seq![none]);
        lemma_later_one(none);
    }
}

/// The components of a written relative path are the names that it was written
/// from; the first of these may be a lone dot.
pub proof fn law_relative_path_gives_names_back(names: Seq<Seq<u8>>)
    requires
        names.len() > 0 ==> is_text(names[0]),
        forall|i: int| 1 <= i < names.len() ==> is_name(#[trigger] names[i]),
    ensures
        components(written(names)) == names,
{
    if names.len() > 0 {
        assert forall|i: int| 0 <= i < names.len() implies is_text(#[trigger] names[i]) by {
            if i > 0 {
                assert(is_name(names[i]));
            }
        }
        lemma_pieces_written(names);
        lemma_named_names(names);
        lemma_written_start(names);
        assert(components(written(names)) =~= names);
    } else {
        reveal_with_fuel(named, 2);
        assert(pieces(written(names)) =~= seq![Seq::<u8>::empty()]);
        assert(components(written(names)) =~= names);
    }
}

proof fn lemma_written_start(names: Seq<Seq<u8>>)
    requires
        names.len() > 0,
        is_text(names[0]),
    ensures
        written(names).len() > 0,
        written(names)[0] == names[0][0],
    decreases names.len(),
{
    if names.len() > 1 {
        assert(names.drop_last()[0] == names[0]);
        lemma_written_start(names.drop_last());
    }
}

/// Repeated separators are read as one.
pub proof fn law_repeated_separators(left: Seq<u8>, right: Seq<u8>)
    ensures
        components(left + seq![0x2fu8, 0x2fu8] + right) == components(
            left + seq![0x2fu8] + right,
        ),
{
    let none = Seq::<u8>::empty();
    lemma_components_split(left, seq![0x2fu8] + right);
    lemma_components_split(left, right);
    assert(left + seq![0x2fu8] + (seq![0x2fu8] + right) =~= left + seq![0x2fu8, 0x2fu8] + right);
    assert(none + seq![0x2fu8] + right =~= seq![0x2fu8] + right);
    lemma_pieces_split(none, right);
    assert(pieces(none) =~= seq![none]);
    lemma_later_split(seq![none], pieces(right));
    lemma_later_one(none);
    assert(later(pieces(seq![0x2fu8] + right)) =~= later(pieces(right)));
}

/// A lone dot after a separator is read as if it was not there.
pub proof fn law_lone_dots(left: Seq<u8>, right: Seq<u8>)
    ensures
        components(left + seq![0x2fu8, 0x2eu8, 0x2fu8] + right) == components(
            left + seq![0x2fu8] + right,
        ),
        components(left + seq![0x2fu8, 0x2eu8]) == components(left + seq![0x2fu8]),
{
    let dot = seq![0x2eu8];
    let none = Seq::<u8>::empty();
    lemma_pieces_text(dot);
    lemma_later_one(dot);
    lemma_later_one(none);
    assert(pieces(none) =~= seq![none]);
    lemma_components_split(left, dot + seq![0x2fu8] + right);
    lemma_components_split(left, right);
    assert(left + seq![0x2fu8] + (dot + seq![0x2fu8] + right) =~= left + seq![
        0x2fu8,
        0x2eu8,
        0x2fu8,
    ] + right);
    lemma_pieces_split(dot, right);
    lemma_later_split(seq![dot], pieces(right));
    assert(later(pieces(dot + seq![0x2fu8] + right)) =~= later(pieces(right)));
    lemma_components_split(left, dot);
    lemma_components_split(left, none);
    assert(left + seq![0x2fu8] + dot =~= left + seq![0x2fu8, 0x2eu8]);
    assert(left + seq![0x2fu8] + none =~= left + seq![0x2fu8]);
}

/// A separator at the end is read as if it was not there.
pub proof fn law_separator_at_the_end(path: Seq<u8>)
    requires
        path.len() > 0,
    ensures
        components(path + seq![0x2fu8]) == components(path),
{
    let none = Seq::<u8>::empty();
    lemma_components_split(path, none);
    lemma_later_one(none);
    assert(pieces(none) =~= seq![none]);
    assert(path + seq![0x2fu8] + none =~= path + seq![0x2fu8]);
    assert(components(path) + Seq::<Seq<u8>>::empty() =~= components(path));
}

/// One path lies below another if and only if its components are those of the
/// other one and any more, however many.
pub proof fn law_below_is_by_components(path: Seq<u8>, base: Seq<u8>)
    ensures
        below(path, base) <==> exists|tail: Seq<Seq<u8>>|
            components(path) == #[trigger] (components(base) + tail),
{
    let long = components(path);
    let short = components(base);
    if below(path, base) {
        let tail = long.skip(short.len() as int);
        assert(short + tail =~= long);
    }
    if exists|tail: Seq<Seq<u8>>| long == #[trigger] (short + tail) {
        let tail = choose|tail: Seq<Seq<u8>>| long == #[trigger] (short + tail);
        assert(short =~= long.subrange(0, short.len() as int));
    }
}

/// Lying below is an order: a path lies below itself and below what its base lies
/// below, two that lie below each other are the same, and of two bases of a path
/// one lies below the other.
pub proof fn law_below_is_an_order(path: Seq<u8>, middle: Seq<u8>, base: Seq<u8>)
    ensures
        below(path, path),
        below(path, middle) && below(middle, base) ==> below(path, base),
        below(path, base) && below(base, path) <==> same(path, base),
        below(path, middle) && below(path, base) ==> below(middle, base) || below(base, middle),
{
    let p = components(path);
    let m = components(middle);
    let b = components(base);
    assert(p =~= p.subrange(0, p.len() as int));
    if below(path, middle) && below(middle, base) {
        assert(b =~= p.subrange(0, b.len() as int)) by {
            assert forall|i: int| 0 <= i < b.len() implies b[i] == p[i] by {
                assert(b[i] == m.subrange(0, b.len() as int)[i]);
                assert(m[i] == p.subrange(0, m.len() as int)[i]);
            }
        }
    }
    if below(path, base) && below(base, path) {
        assert(p =~= b.subrange(0, p.len() as int));
        assert(b =~= p);
    }
    if below(path, middle) && below(path, base) {
        assert forall|i: int| 0 <= i < m.len() implies m[i] == p[i] by {
            assert(m[i] == p.subrange(0, m.len() as int)[i]);
        }
        assert forall|i: int| 0 <= i < b.len() implies b[i] == p[i] by {
            assert(b[i] == p.subrange(0, b.len() as int)[i]);
        }
        if b.len() <= m.len() {
            assert(b =~= m.subrange(0, b.len() as int));
        } else {
            assert(m =~= b.subrange(0, m.len() as int));
        }
    }
}

/// Two paths are the same if and only if they have the same components, and the
/// root is the path whose only component is the root.
pub proof fn law_same_and_root(left: Seq<u8>, right: Seq<u8>)
    ensures
        same(left, right) <==> components(left).len() == components(right).len() && forall|i: int|
            0 <= i < components(left).len() ==> #[trigger] components(left)[i] == components(
                right,
            )[i],
        root(left) <==> components(left).len() == 1 && left.len() > 0 && left[0] == 0x2fu8,
        absolute(left) <==> left.len() > 0 && left[0] == 0x2fu8,
{
    if components(left).len() == components(right).len() && forall|i: int|
        0 <= i < components(left).len() ==> #[trigger] components(left)[i] == components(right)[i] {
        assert(components(left) =~= components(right));
    }
    if components(left).len() == 1 && absolute(left) {
        assert(components(left)[0] == seq![0x2fu8]);
        assert(components(left) =~= seq![seq![0x2fu8]]);
    }
    if root(left) && !absolute(left) {
        lemma_no_separator(left);
        assert(components(left) =~= named(pieces(left)));
        assert(named(pieces(left))[0] == seq![0x2fu8]);
        assert(seq![0x2fu8][0] == 0x2fu8);
        assert(seq![0x2fu8].contains(0x2fu8));
    }
}

/// An absolute path stands for itself wherever it is seen from. Any other path is
/// written behind the directory, with one separator between them where the
/// directory is not empty and does not end in one, and lies below it.
pub proof fn law_joined(base: Seq<u8>, path: Seq<u8>)
    ensures
        path.len() > 0 && path[0] == 0x2fu8 ==> joined(base, path) == path,
        !(path.len() > 0 && path[0] == 0x2fu8) ==> {
            let ends = base.len() == 0 || base[base.len() - 1] == 0x2fu8;
            &&& ends ==> joined(base, path) == base + path
            &&& !ends ==> joined(base, path) == base + seq![0x2fu8] + path
            &&& base.len() > 0 ==> below(joined(base, path), base)
        },
{
    if !absolute(path) && base.len() > 0 {
        if base.last() == 0x2fu8 {
            let front = base.drop_last();
            let none = Seq::<u8>::empty();
            assert(base =~= front + seq![0x2fu8] + none);
            assert(base + path =~= front + seq![0x2fu8] + path);
            lemma_components_split(front, none);
            lemma_components_split(front, path);
            lemma_later_one(none);
            assert(pieces(none) =~= seq![none]);
            assert(components(base) =~= components(joined(base, path)).subrange(
                0,
                components(base).len() as int,
            ));
        } else {
            assert(base.push(0x2fu8) =~= base + seq![0x2fu8]);
            lemma_components_split(base, path);
            assert(components(base) =~= components(joined(base, path)).subrange(
                0,
                components(base).len() as int,
            ));
        }
    }
}

/// The contents of a list of byte strings are those of each of them, in order.
pub proof fn law_all_bytes(list: Seq<Vec<u8>>)
    ensures
        all_bytes(list).len() == list.len(),
        forall|i: int| 0 <= i < list.len() ==> #[trigger] all_bytes(list)[i] == list[i]@,
{
}

} // verus!
