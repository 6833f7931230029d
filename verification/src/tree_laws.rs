//! What holds of the file tree as a whole.

use crate::file_tree::{
    above, entry_at, resolved, walk, with_entry, without_entry, DirView, EntryView,
};
use crate::state::StateError;
use vstd::prelude::*;

verus! {

/// The path `a` leads to `b` or to a directory on the way to `b`.
pub open spec fn leads_to(a: Seq<Seq<char>>, b: Seq<Seq<char>>) -> bool {
    a.len() <= b.len() && b.take(a.len() as int) == a
}

/// How the lookup of a path with two or more segments goes on below its first segment.
proof fn lemma_entry_at_step(dir: DirView, path: Seq<Seq<char>>)
    requires
        path.len() >= 2,
    ensures
        dir.contains_key(path.first()) && dir[path.first()] is Dir ==> entry_at(dir, path)
            == entry_at(dir[path.first()]->Dir_0, path.drop_first()),
        !(dir.contains_key(path.first()) && dir[path.first()] is Dir) ==> entry_at(dir, path)
            == Err::<Option<EntryView>, StateError>(StateError::BrokenPath),
        path.drop_first().last() == path.last(),
{
    assert(path.drop_last().drop_first() =~= path.drop_first().drop_last());
    assert(path.drop_last().first() == path.first());
}

/// After an entry was put at a path, that entry is found there.
pub proof fn an_entry_is_found_where_it_was_put(
    dir: DirView,
    path: Seq<Seq<char>>,
    entry: EntryView,
)
    requires
        entry_at(dir, path) is Ok,
    ensures
        entry_at(with_entry(dir, path, entry), path) == Ok::<Option<EntryView>, StateError>(
            Some(entry),
        ),
    decreases path.len(),
{
    if path.len() == 1 {
        assert(path.drop_last() =~= Seq::<Seq<char>>::empty());
    } else {
        lemma_entry_at_step(dir, path);
        lemma_entry_at_step(with_entry(dir, path, entry), path);
        an_entry_is_found_where_it_was_put(dir[path.first()]->Dir_0, path.drop_first(), entry);
    }
}

/// After the entry at a path was taken out, nothing is found there.
pub proof fn nothing_is_found_where_an_entry_was_taken(dir: DirView, path: Seq<Seq<char>>)
    requires
        entry_at(dir, path) is Ok,
    ensures
        entry_at(without_entry(dir, path), path) == Ok::<Option<EntryView>, StateError>(None),
    decreases path.len(),
{
    if path.len() == 1 {
        assert(path.drop_last() =~= Seq::<Seq<char>>::empty());
    } else {
        lemma_entry_at_step(dir, path);
        lemma_entry_at_step(without_entry(dir, path), path);
        nothing_is_found_where_an_entry_was_taken(dir[path.first()]->Dir_0, path.drop_first());
    }
}

/// Taking out an entry that was put where there was none gives back the old directory.
pub proof fn taking_undoes_putting(dir: DirView, path: Seq<Seq<char>>, entry: EntryView)
    requires
        entry_at(dir, path) == Ok::<Option<EntryView>, StateError>(None),
    ensures
        without_entry(with_entry(dir, path, entry), path) == dir,
    decreases path.len(),
{
    if path.len() == 1 {
        assert(path.drop_last() =~= Seq::<Seq<char>>::empty());
        assert(without_entry(with_entry(dir, path, entry), path) =~= dir);
    } else {
        lemma_entry_at_step(dir, path);
        taking_undoes_putting(dir[path.first()]->Dir_0, path.drop_first(), entry);
        assert(without_entry(with_entry(dir, path, entry), path) =~= dir);
    }
}

/// Putting an entry at a path changes nothing at paths that neither lead to it nor are reached
/// through it.
pub proof fn putting_leaves_the_rest(
    dir: DirView,
    path: Seq<Seq<char>>,
    entry: EntryView,
    other: Seq<Seq<char>>,
)
    requires
        entry_at(dir, path) is Ok,
        !leads_to(path, other),
        !leads_to(other, path),
    ensures
        entry_at(with_entry(dir, path, entry), other) == entry_at(dir, other),
    decreases path.len(),
{
    lemma_apart(path, other);
    if path.len() == 1 {
        assert(path.drop_last() =~= Seq::<Seq<char>>::empty());
        if other.len() >= 2 {
            lemma_entry_at_step(dir, other);
            lemma_entry_at_step(with_entry(dir, path, entry), other);
        } else {
            assert(other.drop_last() =~= Seq::<Seq<char>>::empty());
        }
    } else {
        lemma_entry_at_step(dir, path);
        if other.len() >= 2 {
            lemma_entry_at_step(dir, other);
            lemma_entry_at_step(with_entry(dir, path, entry), other);
            if other.first() == path.first() {
                putting_leaves_the_rest(
                    dir[path.first()]->Dir_0,
                    path.drop_first(),
                    entry,
                    other.drop_first(),
                );
            }
        } else {
            assert(other.drop_last() =~= Seq::<Seq<char>>::empty());
        }
    }
}

/// Taking out the entry at a path changes nothing at paths that neither lead to it nor are
/// reached through it.
pub proof fn taking_leaves_the_rest(
    dir: DirView,
    path: Seq<Seq<char>>,
    other: Seq<Seq<char>>,
)
    requires
        entry_at(dir, path) is Ok,
        !leads_to(path, other),
        !leads_to(other, path),
    ensures
        entry_at(without_entry(dir, path), other) == entry_at(dir, other),
    decreases path.len(),
{
    lemma_apart(path, other);
    if path.len() == 1 {
        assert(path.drop_last() =~= Seq::<Seq<char>>::empty());
        if other.len() >= 2 {
            lemma_entry_at_step(dir, other);
            lemma_entry_at_step(without_entry(dir, path), other);
        } else {
            assert(other.drop_last() =~= Seq::<Seq<char>>::empty());
        }
    } else {
        lemma_entry_at_step(dir, path);
        if other.len() >= 2 {
            lemma_entry_at_step(dir, other);
            lemma_entry_at_step(without_entry(dir, path), other);
            if other.first() == path.first() {
                taking_leaves_the_rest(
                    dir[path.first()]->Dir_0,
                    path.drop_first(),
                    other.drop_first(),
                );
            }
        } else {
            assert(other.drop_last() =~= Seq::<Seq<char>>::empty());
        }
    }
}

/// Two paths of which neither leads to the other are not empty, differ in their first segment
/// where one of them has no more, and below it where they share it.
proof fn lemma_apart(a: Seq<Seq<char>>, b: Seq<Seq<char>>)
    requires
        !leads_to(a, b),
        !leads_to(b, a),
    ensures
        a.len() > 0,
        b.len() > 0,
        a.len() == 1 || b.len() == 1 ==> a.first() != b.first(),
        a.first() == b.first() ==> !leads_to(a.drop_first(), b.drop_first()) && !leads_to(
            b.drop_first(),
            a.drop_first(),
        ),
{
    assert(b.take(0) =~= Seq::<Seq<char>>::empty());
    assert(a.take(0) =~= Seq::<Seq<char>>::empty());
    if a.len() == 0 {
        assert(a =~= Seq::<Seq<char>>::empty());
    }
    if b.len() == 0 {
        assert(b =~= Seq::<Seq<char>>::empty());
    }
    if a.len() == 1 && a.first() == b.first() {
        assert(b.take(1) =~= a);
    }
    if b.len() == 1 && a.first() == b.first() {
        assert(a.take(1) =~= b);
    }
    if a.len() > 0 && b.len() > 0 && a.first() == b.first() {
        if leads_to(a.drop_first(), b.drop_first()) {
            assert(b.take(a.len() as int) =~= seq![b.first()] + b.drop_first().take(a.len() - 1));
            assert(a =~= seq![a.first()] + a.drop_first());
        }
        if leads_to(b.drop_first(), a.drop_first()) {
            assert(a.take(b.len() as int) =~= seq![a.first()] + a.drop_first().take(b.len() - 1));
            assert(b =~= seq![b.first()] + b.drop_first());
        }
    }
}

/// A path at which a new entry can be put and a path at which a file stands do not lead to one
/// another.
pub proof fn a_free_path_is_apart_from_a_file(
    dir: DirView,
    free: Seq<Seq<char>>,
    file: Seq<Seq<char>>,
)
    requires
        entry_at(dir, free) == Ok::<Option<EntryView>, StateError>(None),
        entry_at(dir, file) matches Ok(Some(EntryView::File(_))),
    ensures
        !leads_to(free, file),
        !leads_to(file, free),
    decreases free.len(),
{
    if free.len() == 1 || file.len() == 1 {
        if free.len() == 1 {
            assert(free.drop_last() =~= Seq::<Seq<char>>::empty());
        } else {
            lemma_entry_at_step(dir, free);
        }
        if file.len() == 1 {
            assert(file.drop_last() =~= Seq::<Seq<char>>::empty());
        } else {
            lemma_entry_at_step(dir, file);
        }
        assert(free.first() != file.first());
        if leads_to(free, file) {
            assert(file.take(free.len() as int)[0] == free[0]);
        }
        if leads_to(file, free) {
            assert(free.take(file.len() as int)[0] == file[0]);
        }
    } else {
        lemma_entry_at_step(dir, free);
        lemma_entry_at_step(dir, file);
        if free.first() == file.first() {
            a_free_path_is_apart_from_a_file(
                dir[free.first()]->Dir_0,
                free.drop_first(),
                file.drop_first(),
            );
        }
        if leads_to(free, file) {
            assert(file.take(free.len() as int)[0] == free[0]);
            assert(file.drop_first().take(free.len() - 1) =~= file.take(
                free.len() as int,
            ).drop_first());
        }
        if leads_to(file, free) {
            assert(free.take(file.len() as int)[0] == file[0]);
            assert(free.drop_first().take(file.len() - 1) =~= free.take(
                file.len() as int,
            ).drop_first());
        }
    }
}

/// The paths of two different files do not lead to one another.
pub proof fn files_are_apart(dir: DirView, a: Seq<Seq<char>>, b: Seq<Seq<char>>)
    requires
        entry_at(dir, a) matches Ok(Some(EntryView::File(_))),
        entry_at(dir, b) matches Ok(Some(EntryView::File(_))),
        a != b,
    ensures
        !leads_to(a, b),
        !leads_to(b, a),
    decreases a.len(),
{
    if a.len() == 1 || b.len() == 1 {
        if a.len() == 1 {
            assert(a.drop_last() =~= Seq::<Seq<char>>::empty());
        } else {
            lemma_entry_at_step(dir, a);
        }
        if b.len() == 1 {
            assert(b.drop_last() =~= Seq::<Seq<char>>::empty());
        } else {
            lemma_entry_at_step(dir, b);
        }
        if a.len() == 1 && b.len() == 1 && a.first() == b.first() {
            assert(a =~= b);
        }
        assert(a.first() != b.first());
        if leads_to(a, b) {
            assert(b.take(a.len() as int)[0] == a[0]);
        }
        if leads_to(b, a) {
            assert(a.take(b.len() as int)[0] == b[0]);
        }
    } else {
        lemma_entry_at_step(dir, a);
        lemma_entry_at_step(dir, b);
        if a.first() == b.first() {
            if a.drop_first() == b.drop_first() {
                assert(a =~= seq![a.first()] + a.drop_first());
                assert(b =~= seq![b.first()] + b.drop_first());
            }
            files_are_apart(dir[a.first()]->Dir_0, a.drop_first(), b.drop_first());
        }
        if leads_to(a, b) {
            assert(b.take(a.len() as int)[0] == a[0]);
            assert(b.drop_first().take(a.len() - 1) =~= b.take(a.len() as int).drop_first());
        }
        if leads_to(b, a) {
            assert(a.take(b.len() as int)[0] == b[0]);
            assert(a.drop_first().take(b.len() - 1) =~= a.take(b.len() as int).drop_first());
        }
    }
}

/// A path is followed name by name: every name but the last has to name a directory in the
/// directory that the names before it lead to, and the last name is looked up in the last of them.
pub proof fn a_path_is_followed_name_by_name(dir: DirView, name: Seq<char>, rest: Seq<Seq<char>>)
    ensures
        entry_at(dir, Seq::empty()) == Err::<Option<EntryView>, StateError>(StateError::PathEmpty),
        entry_at(dir, seq![name]) == Ok::<Option<EntryView>, StateError>(
            if dir.contains_key(name) {
                Some(dir[name])
            } else {
                None
            },
        ),
        rest.len() > 0 ==> entry_at(dir, seq![name] + rest) == (if dir.contains_key(name) {
            match dir[name] {
                EntryView::Dir(below) => entry_at(below, rest),
                EntryView::File(_) => Err(StateError::BrokenPath),
            }
        } else {
            Err(StateError::BrokenPath)
        }),
{
    assert(seq![name].drop_last() =~= Seq::<Seq<char>>::empty());
    if rest.len() > 0 {
        let path = seq![name] + rest;
        lemma_entry_at_step(dir, path);
        assert(path.drop_first() =~= rest);
    }
}

/// A way through directories is walked name by name, and every name has to name a directory.
pub proof fn a_way_is_walked_name_by_name(dir: DirView, name: Seq<char>, rest: Seq<Seq<char>>)
    ensures
        walk(dir, Seq::empty()) == Some(dir),
        walk(dir, seq![name] + rest) == (if dir.contains_key(name) {
            match dir[name] {
                EntryView::Dir(below) => walk(below, rest),
                EntryView::File(_) => None,
            }
        } else {
            None
        }),
        above(rest.push(name)) == rest,
        above(Seq::empty()) == Seq::<Seq<char>>::empty(),
{
    assert((seq![name] + rest).drop_first() =~= rest);
    assert(rest.push(name).drop_last() =~= rest);
}

/// Walking two ways one behind the other is walking the second from where the first leads.
pub proof fn walking_goes_on(dir: DirView, first: Seq<Seq<char>>, second: Seq<Seq<char>>)
    ensures
        walk(dir, first + second) == (match walk(dir, first) {
            Some(middle) => walk(middle, second),
            None => None,
        }),
    decreases first.len(),
{
    if first.len() == 0 {
        assert(first + second =~= second);
    } else {
        let path = first + second;
        assert(path.first() == first.first());
        assert(path.drop_first() =~= first.drop_first() + second);
        if dir.contains_key(first.first()) && dir[first.first()] is Dir {
            walking_goes_on(dir[first.first()]->Dir_0, first.drop_first(), second);
        }
    }
}

/// An entry is found in its directory: what stands at a path is what the last name stands for in
/// the directory that the other names lead to.
pub proof fn an_entry_stands_in_its_directory(dir: DirView, way: Seq<Seq<char>>, name: Seq<char>)
    ensures
        entry_at(dir, way.push(name)) == (match walk(dir, way) {
            Some(parent) => entry_at(parent, seq![name]),
            None => Err(StateError::BrokenPath),
        }),
{
    assert(way.push(name).drop_last() =~= way);
    assert(seq![name].drop_last() =~= Seq::<Seq<char>>::empty());
}

/// Resolving a path leaves out its last segment but one: the last name is looked up where the path
/// without these two segments leads to. What is not found there is a broken path.
pub proof fn resolving_leaves_out_the_last_segment_but_one(
    dir: DirView,
    way: Seq<Seq<char>>,
    skipped: Seq<char>,
    name: Seq<char>,
)
    ensures
        resolved(dir, Seq::empty()) == Err::<EntryView, StateError>(StateError::PathEmpty),
        resolved(dir, seq![name]) == (match entry_at(dir, seq![name]) {
            Ok(Some(entry)) => Ok(entry),
            _ => Err(StateError::BrokenPath),
        }),
        resolved(dir, way.push(skipped).push(name)) == (match entry_at(dir, way.push(name)) {
            Ok(Some(entry)) => Ok(entry),
            _ => Err(StateError::BrokenPath),
        }),
{
    assert(seq![name].drop_last() =~= Seq::<Seq<char>>::empty());
    assert(way.push(name).drop_last() =~= way);
    assert(way.push(skipped).push(name).drop_last() =~= way.push(skipped));
    assert(way.push(skipped).drop_last() =~= way);
}

} // verus!
