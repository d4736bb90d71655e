//! What holds of the copies of files: which names are theirs, which of them are free, and
//! which copies are removed.

use vstd::prelude::*;

use crate::backup::{
    backups_among, by_age, candidate, expired, in_order, is_backup, is_first_free, is_later,
    last_dot, law_by_age, law_expired, placed, prefix_of, BackupView,
};
use crate::text::decimal;

verus! {

/// A name for a copy that is free is not taken, begins with what it is to begin with, and
/// ends with the extension; it has a number only where the name without one is taken, and
/// no smaller number would do.
pub proof fn law_free_name(
    name: Seq<char>,
    base: Seq<char>,
    extension: Seq<char>,
    taken: Seq<Seq<char>>,
    n: nat,
)
    ensures
        is_first_free(name, base, extension, taken, n) ==> {
            &&& !taken.contains(name)
            &&& n == 0 ==> name == base + "."@ + extension
            &&& n > 0 ==> name == base + "_"@ + decimal(n) + "."@ + extension
            &&& n > 0 ==> taken.contains(base + "."@ + extension)
            &&& forall|m: nat|
                0 < m < n ==> taken.contains(
                    base + "_"@ + #[trigger] decimal(m) + "."@ + extension,
                )
        },
        prefix_of(base, extension) == base + "_"@ + extension + "_"@,
{
    if is_first_free(name, base, extension, taken, n) {
        if n > 0 {
            assert(taken.contains(candidate(base, extension, 0)));
        }
        assert forall|m: nat| 0 < m < n implies taken.contains(
            base + "_"@ + #[trigger] decimal(m) + "."@ + extension,
        ) by {
            assert(taken.contains(candidate(base, extension, m)));
        }
    }
}

proof fn lemma_dot(s: Seq<char>, n: nat)
    requires
        n <= s.len(),
    ensures
        match last_dot(s, n) {
            Some(i) => i < n && s[i as int] == '.' && forall|j: int|
                i < j < n ==> #[trigger] s[j] != '.',
            None => forall|j: int| 0 <= j < n ==> #[trigger] s[j] != '.',
        },
    decreases n,
{
    if n > 0 {
        lemma_dot(s, (n - 1) as nat);
    }
}

/// A name is that of a copy exactly where it begins with the prefix, and what stands behind
/// its last dot, which is not its first character, is one of the extensions.
pub proof fn law_backup_name(name: Seq<char>, prefix: Seq<char>, extensions: Seq<Seq<char>>)
    ensures
        is_backup(name, prefix, extensions) <==> {
            &&& prefix.len() <= name.len() && name.take(prefix.len() as int) == prefix
            &&& exists|i: int|
                0 < i < name.len() && #[trigger] name[i] == '.' && (forall|j: int|
                    i < j < name.len() ==> #[trigger] name[j] != '.') && extensions.contains(
                    name.skip(i + 1),
                )
        },
{
    lemma_dot(name, name.len());
    if prefix.len() <= name.len() {
        assert(name.take(prefix.len() as int) =~= name.subrange(0, prefix.len() as int));
    }
    match last_dot(name, name.len()) {
        Some(d) => {
            assert(name.skip(d as int + 1) =~= name.subrange(d as int + 1, name.len() as int));
            if exists|i: int|
                0 < i < name.len() && #[trigger] name[i] == '.' && (forall|j: int|
                    i < j < name.len() ==> #[trigger] name[j] != '.') && extensions.contains(
                    name.skip(i + 1),
                ) {
                let i = choose|i: int|
                    0 < i < name.len() && #[trigger] name[i] == '.' && (forall|j: int|
                        i < j < name.len() ==> #[trigger] name[j] != '.') && extensions.contains(
                        name.skip(i + 1),
                    );
                assert(i == d);
            }
        },
        None => {},
    }
}

/// A copy is later than another where its time is greater; one whose time is not known is
/// earlier than all others.
pub proof fn law_later(a: i128, b: i128)
    ensures
        is_later(Some(a), Some(b)) <==> a > b,
        is_later(Some(a), None),
        !is_later(None, Some(b)),
        !is_later(None, None),
{
}

/// The copies that are removed are the oldest of their kind: together with those that are
/// left they are all of the kind among the files, no more than `retain` are left, no more
/// are removed than need be, and none that is removed is later than one that is left.
pub proof fn law_oldest_removed(
    files: Seq<BackupView>,
    prefix: Seq<char>,
    extensions: Seq<Seq<char>>,
    retain: nat,
) -> (left: Seq<BackupView>)
    ensures
        ({
            let all = files.filter(|f: BackupView| is_backup(f.name, prefix, extensions));
            let gone = expired(files, prefix, extensions, retain);
            &&& (gone + left).to_multiset() == all.to_multiset()
            &&& in_order(gone + left)
            &&& left.len() == (if all.len() < retain {
                all.len()
            } else {
                retain
            })
            &&& forall|i: int, j: int|
                0 <= i < gone.len() && 0 <= j < left.len() ==> !is_later(
                    (#[trigger] gone[i]).modified,
                    (#[trigger] left[j]).modified,
                )
        }),
{
    let all = files.filter(|f: BackupView| is_backup(f.name, prefix, extensions));
    let gone = expired(files, prefix, extensions, retain);
    law_expired(files, prefix, extensions, retain);
    assert(backups_among(files, prefix, extensions) == all);
    law_by_age(all);
    let left = by_age(all).skip(gone.len() as int);
    left
}

/// Copies of the same time stay in the order in which they are listed.
pub proof fn law_same_time(files: Seq<BackupView>, time: Option<i128>)
    ensures
        by_age(files).filter(|f: BackupView| f.modified == time) == files.filter(
            |f: BackupView| f.modified == time,
        ),
    decreases files.len(),
{
    let p = |f: BackupView| f.modified == time;
    if files.len() > 0 {
        let front = files.drop_last();
        let f = files.last();
        law_same_time(front, time);
        law_by_age(front);
        lemma_placed_same_time(by_age(front), f, time);
        assert(files =~= front.push(f));
        lemma_push_filter(front, f, time);
    }
}

proof fn lemma_push_filter(files: Seq<BackupView>, f: BackupView, time: Option<i128>)
    ensures
        files.push(f).filter(|f: BackupView| f.modified == time) == (if f.modified == time {
            files.filter(|f: BackupView| f.modified == time).push(f)
        } else {
            files.filter(|f: BackupView| f.modified == time)
        }),
{
    reveal(Seq::filter);
    assert(files.push(f).drop_last() =~= files);
}

proof fn lemma_placed_same_time(files: Seq<BackupView>, f: BackupView, time: Option<i128>)
    requires
        in_order(files),
    ensures
        placed(files, f).filter(|f: BackupView| f.modified == time) == (if f.modified == time {
            files.filter(|f: BackupView| f.modified == time).push(f)
        } else {
            files.filter(|f: BackupView| f.modified == time)
        }),
    decreases files.len(),
{
    let p = |f: BackupView| f.modified == time;
    if files.len() > 0 && is_later(files.last().modified, f.modified) {
        let front = files.drop_last();
        let last = files.last();
        assert forall|i: int, j: int| 0 <= i < j < front.len() implies !is_later(
            (#[trigger] front[i]).modified,
            (#[trigger] front[j]).modified,
        ) by {
            assert(front[i] == files[i] && front[j] == files[j]);
        }
        lemma_placed_same_time(front, f, time);
        lemma_push_filter(placed(front, f), last, time);
        assert(files =~= front.push(last));
        lemma_push_filter(front, last, time);
        if last.modified == time {
            assert(f.modified != time);
        }
    } else {
        lemma_push_filter(files, f, time);
    }
}

} // verus!
