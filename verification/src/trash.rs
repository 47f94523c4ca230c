//! Moving obsolete files to a trash folder, and removing them from the local list.
use vstd::prelude::*;
use crate::text::{
    lines_of, fields_of, views, chars_of, string_of, copy_chars, push_chars, split_chars,
    lines_chars, chars_equal, lemma_split_on_nonempty,
};

verus! {

/// Whether some line of `lines` equals `line`.
pub fn has_equal_line(lines: &Vec<Vec<char>>, line: &[char]) -> (r: bool)
    ensures
        r == views(lines@).contains(line@),
{
    let ghost vl = views(lines@);
    let mut i: usize = 0;
    while i < lines.len()
        invariant
            i <= lines@.len(),
            vl == views(lines@),
            forall|k: int| 0 <= k < i ==> #[trigger] vl[k] != line@,
        decreases lines@.len() - i,
    {
        if chars_equal(&lines[i], line) {
            assert(vl[i as int] == line@);
            return true;
        }
        i = i + 1;
    }
    false
}

/// The lines of `list` that are not a line of `removed`, in their order, each followed
/// by `'\n'`.
pub open spec fn lines_without(list: Seq<Seq<char>>, removed: Seq<Seq<char>>) -> Seq<char>
    decreases list.len(),
{
    if list.len() == 0 {
        Seq::empty()
    } else if removed.contains(list.last()) {
        lines_without(list.drop_last(), removed)
    } else {
        lines_without(list.drop_last(), removed) + list.last() + seq!['\n']
    }
}

/// The lines of `list` that are not a line of `removed`, each followed by `'\n'`.
fn lines_without_chars(list: &Vec<Vec<char>>, removed: &Vec<Vec<char>>) -> (r: Vec<char>)
    ensures
        r@ == lines_without(views(list@), views(removed@)),
{
    let ghost ll = views(list@);
    let ghost rl = views(removed@);
    let mut kept: Vec<char> = Vec::new();
    let mut j: usize = 0;
    while j < list.len()
        invariant
            j <= list@.len(),
            ll == views(list@),
            rl == views(removed@),
            kept@ == lines_without(ll.take(j as int), rl),
        decreases list@.len() - j,
    {
        assert(ll.take(j + 1).drop_last() =~= ll.take(j as int));
        if !has_equal_line(removed, &list[j]) {
            push_chars(&mut kept, &list[j]);
            kept.push('\n');
            assert(kept@ =~= lines_without(ll.take(j as int), rl) + ll[j as int] + seq!['\n']);
        }
        j = j + 1;
    }
    assert(ll.take(list@.len() as int) =~= ll);
    kept
}

/// Removes from a list the lines that equal a line of `removed`: the other lines of
/// `list`, each followed by `'\n'`.
pub fn remove_lines(list: &str, removed: &str) -> (r: String)
    ensures
        r@ == lines_without(lines_of(list@), lines_of(removed@)),
{
    let kept = lines_without_chars(&lines_chars(&chars_of(list)), &lines_chars(&chars_of(removed)));
    string_of(&kept)
}

/// A file to move into the trash folder.
pub struct TrashMove {
    pub from: String,
    pub to: String,
}

/// The moves of the files of the trash list: each path (first field of a line) from
/// the backup folder to the same place under the trash folder.
pub open spec fn trash_moves_match(moves: Seq<TrashMove>, lines: Seq<Seq<char>>, base: Seq<char>, folder: Seq<char>) -> bool {
    &&& moves.len() == lines.len()
    &&& forall|i: int| 0 <= i < lines.len() ==> {
        &&& (#[trigger] moves[i]).from@ == base + fields_of(lines[i])[0]
        &&& moves[i].to@ == folder + fields_of(lines[i])[0]
    }
}

/// What trashing the files of a non-empty trash list takes: the trash folder, the file
/// moves (each to be done where the file still exists), and the new local list.
pub struct TrashPlan {
    pub trash_folder: String,
    pub moves: Vec<TrashMove>,
    pub list_local: String,
}

/// Plans moving the files of the trash list to the folder `<base>_<now>` and removing
/// their lines from the local list; `None` for an empty trash list, where nothing is to
/// be done. A local line is removed where it equals a line of the trash list.
pub fn trash_from_list_internal(base_local_path: &str, list_for_trash: &str, list_local: &str, now: &str) -> (r: Option<TrashPlan>)
    ensures
        r is None <==> list_for_trash@.len() == 0,
        r matches Some(p) ==> {
            &&& p.trash_folder@ == base_local_path@ + seq!['_'] + now@
            &&& trash_moves_match(p.moves@, lines_of(list_for_trash@), base_local_path@, p.trash_folder@)
            &&& p.list_local@ == lines_without(lines_of(list_local@), lines_of(list_for_trash@))
        },
{
    if list_for_trash.is_empty() {
        return None;
    }
    let base = chars_of(base_local_path);
    let mut folder = copy_chars(&base);
    folder.push('_');
    push_chars(&mut folder, &chars_of(now));
    let trash_text = chars_of(list_for_trash);
    let trash_lines = lines_chars(&trash_text);
    let mut moves: Vec<TrashMove> = Vec::new();
    let mut i: usize = 0;
    let ghost tl = views(trash_lines@);
    while i < trash_lines.len()
        invariant
            i <= trash_lines@.len(),
            tl == views(trash_lines@),
            base@ == base_local_path@,
            moves@.len() == i,
            forall|k: int| 0 <= k < i ==> {
                &&& (#[trigger] moves@[k]).from@ == base@ + fields_of(tl[k])[0]
                &&& moves@[k].to@ == folder@ + fields_of(tl[k])[0]
            },
        decreases trash_lines@.len() - i,
    {
        let fields = split_chars(&trash_lines[i], '\t');
        proof {
            lemma_split_on_nonempty(tl[i as int], '\t');
        }
        let mut from = copy_chars(&base);
        push_chars(&mut from, &fields[0]);
        let mut to = copy_chars(&folder);
        push_chars(&mut to, &fields[0]);
        moves.push(TrashMove { from: string_of(&from), to: string_of(&to) });
        i = i + 1;
    }
    let kept = lines_without_chars(&lines_chars(&chars_of(list_local)), &trash_lines);
    Some(TrashPlan { trash_folder: string_of(&folder), moves, list_local: string_of(&kept) })
}

/// A trash plan keeps the folders: each file of the trash list (the first field of its
/// line) goes from the backup folder to the same path under the trash folder, which is
/// the backup folder's path, `'_'` and the time; so what follows the trash folder in a
/// move's target is what follows the backup folder in its source.
pub proof fn law_trash_keeps_folders(base_local_path: Seq<char>, list_for_trash: Seq<char>, now: Seq<char>, p: TrashPlan)
    requires
        p.trash_folder@ == base_local_path + seq!['_'] + now,
        trash_moves_match(p.moves@, lines_of(list_for_trash), base_local_path, p.trash_folder@),
    ensures
        p.moves@.len() == lines_of(list_for_trash).len(),
        forall|i: int| 0 <= i < p.moves@.len() ==> {
            &&& (#[trigger] p.moves@[i]).from@ == base_local_path + fields_of(lines_of(list_for_trash)[i])[0]
            &&& p.moves@[i].to@ == base_local_path + seq!['_'] + now + fields_of(lines_of(list_for_trash)[i])[0]
            &&& p.moves@[i].to@.skip(p.trash_folder@.len() as int) == p.moves@[i].from@.skip(base_local_path.len() as int)
        },
{
    assert forall|i: int| 0 <= i < p.moves@.len() implies {
        &&& (#[trigger] p.moves@[i]).from@ == base_local_path + fields_of(lines_of(list_for_trash)[i])[0]
        &&& p.moves@[i].to@ == base_local_path + seq!['_'] + now + fields_of(lines_of(list_for_trash)[i])[0]
        &&& p.moves@[i].to@.skip(p.trash_folder@.len() as int) == p.moves@[i].from@.skip(base_local_path.len() as int)
    } by {
        let f = fields_of(lines_of(list_for_trash)[i])[0];
        assert(p.moves@[i].to@.skip(p.trash_folder@.len() as int) =~= f);
        assert(p.moves@[i].from@.skip(base_local_path.len() as int) =~= f);
    }
}

/// The lines, each followed by `'\n'`.
pub open spec fn each_line_ended(ls: Seq<Seq<char>>) -> Seq<char>
    decreases ls.len(),
{
    if ls.len() == 0 {
        Seq::empty()
    } else {
        each_line_ended(ls.drop_last()) + ls.last() + seq!['\n']
    }
}

/// Removing lines keeps, in their order, exactly the lines of the list that equal no
/// removed line; a line that is only part of a removed line stays.
pub proof fn law_remove_lines_keeps_the_others(list: Seq<Seq<char>>, removed: Seq<Seq<char>>)
    ensures
        lines_without(list, removed) == each_line_ended(list.filter(|l: Seq<char>| !removed.contains(l))),
    decreases list.len(),
{
    reveal(Seq::filter);
    let p = |l: Seq<char>| !removed.contains(l);
    if list.len() > 0 {
        law_remove_lines_keeps_the_others(list.drop_last(), removed);
        assert(list.filter(p) == if p(list.last()) {
            list.drop_last().filter(p).push(list.last())
        } else {
            list.drop_last().filter(p)
        });
        if p(list.last()) {
            assert(list.filter(p).drop_last() =~= list.drop_last().filter(p));
        }
    }
}

} // verus!
