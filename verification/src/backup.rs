//! Copies of configuration files, which are made before a file is overwritten.
//!
//! A copy is named after the application, the kind of the file and the time, such as
//! `dsh_settings_20250101_120000.yaml`. A limited number of copies is kept of each
//! kind.

use vstd::prelude::*;
use vstd::relations::injective_on;
use vstd::set_lib::{lemma_int_range, lemma_map_size, set_int_range};

use crate::text::{among, begins_with, chars_of, decimal, digit, glue, numeral, starts_with, texts};

verus! {

// ----------------------------------------------------------------------------
// Names
// ----------------------------------------------------------------------------

/// The `n`-th name that a copy may have: the first has no number.
pub open spec fn candidate(base: Seq<char>, extension: Seq<char>, n: nat) -> Seq<char> {
    if n == 0 {
        base + "."@ + extension
    } else {
        base + "_"@ + decimal(n) + "."@ + extension
    }
}

/// The name is the first one that is not taken.
pub open spec fn is_first_free(
    name: Seq<char>,
    base: Seq<char>,
    extension: Seq<char>,
    taken: Seq<Seq<char>>,
    n: nat,
) -> bool {
    &&& name == candidate(base, extension, n)
    &&& !taken.contains(name)
    &&& forall|m: nat| m < n ==> taken.contains(#[trigger] candidate(base, extension, m))
}

/// Numerals tell numbers apart.
proof fn lemma_decimal(a: nat, b: nat)
    requires
        decimal(a) == decimal(b),
    ensures
        a == b,
    decreases a,
{
    if a >= 10 && b >= 10 {
        let x = decimal(a / 10);
        let y = decimal(b / 10);
        assert(x.push(digit(a % 10)).drop_last() =~= x);
        assert(y.push(digit(b % 10)).drop_last() =~= y);
        assert(x.push(digit(a % 10)).last() == digit(a % 10));
        assert(y.push(digit(b % 10)).last() == digit(b % 10));
        lemma_decimal(a / 10, b / 10);
    } else if a < 10 && b < 10 {
        assert(seq![digit(a)][0] == digit(a));
        assert(seq![digit(b)][0] == digit(b));
    } else if a >= 10 {
        lemma_decimal_len(a / 10);
        assert(decimal(a).len() > 1);
    } else {
        lemma_decimal_len(b / 10);
        assert(decimal(b).len() > 1);
    }
}

proof fn lemma_decimal_len(n: nat)
    ensures
        decimal(n).len() > 0,
    decreases n,
{
    if n >= 10 {
        lemma_decimal_len(n / 10);
    }
}

/// The names that a copy may have differ from each other.
proof fn lemma_candidates(base: Seq<char>, extension: Seq<char>, a: nat, b: nat)
    requires
        candidate(base, extension, a) == candidate(base, extension, b),
    ensures
        a == b,
{
    reveal_strlit("_");
    reveal_strlit(".");
    let x = candidate(base, extension, a);
    let y = candidate(base, extension, b);
    let n = base.len() as int;
    if a == 0 && b != 0 {
        lemma_decimal_len(b);
        assert(x.len() != y.len());
    } else if a != 0 && b == 0 {
        lemma_decimal_len(a);
        assert(x.len() != y.len());
    } else if a != 0 {
        assert(x.len() == n + 1 + decimal(a).len() + 1 + extension.len());
        assert(y.len() == n + 1 + decimal(b).len() + 1 + extension.len());
        assert(x.subrange(n + 1, n + 1 + decimal(a).len()) =~= decimal(a));
        assert(y.subrange(n + 1, n + 1 + decimal(b).len()) =~= decimal(b));
        lemma_decimal(a, b);
    }
}

/// Not all of the first names can be taken, if there are more of them than names
/// that are taken.
proof fn lemma_some_free(base: Seq<char>, extension: Seq<char>, taken: Seq<Seq<char>>)
    ensures
        exists|n: nat| n <= taken.len() && !taken.contains(#[trigger] candidate(base, extension, n)),
{
    if forall|n: nat| n <= taken.len() ==> taken.contains(#[trigger] candidate(base, extension, n)) {
        let count = taken.len() as int;
        let dom = set_int_range(0, count + 1);
        let place = |i: int|
            choose|j: int| 0 <= j < count && taken[j] == candidate(base, extension, i as nat);
        assert forall|i: int| 0 <= i <= count implies 0 <= #[trigger] place(i) < count
            && taken[place(i)] == candidate(base, extension, i as nat) by {
            assert(taken.contains(candidate(base, extension, i as nat)));
        }
        assert(injective_on(place, dom)) by {
            assert forall|i: int, k: int|
                dom.contains(i) && dom.contains(k) && #[trigger] place(i) == #[trigger] place(k) implies i
                == k by {
                lemma_candidates(base, extension, i as nat, k as nat);
            }
        }
        lemma_int_range(0, count + 1);
        lemma_int_range(0, count);
        let image = dom.map(place);
        lemma_map_size(dom, image, place);
        assert(image.subset_of(set_int_range(0, count)));
        vstd::set_lib::lemma_len_subset(image, set_int_range(0, count));
        assert(false);
    }
}

/// The first name for a copy that is not taken.
pub fn free_name(base: &str, extension: &str, taken: &Vec<String>) -> (r: String)
    ensures
        exists|n: nat| #[trigger] is_first_free(r@, base@, extension@, texts(taken@), n),
{
    let ghost all = texts(taken@);
    proof {
        lemma_some_free(base@, extension@, all);
        assert(taken.len() == taken@.len());
    }
    let ghost free = choose|n: nat|
        n <= all.len() && !all.contains(#[trigger] candidate(base@, extension@, n));
    let ending = glue(".", extension);
    let mut name = glue(base, ending.as_str());
    let mut counter: u64 = 0;
    assert(name@ =~= candidate(base@, extension@, 0));
    while among(taken, name.as_str())
        invariant
            all == texts(taken@),
            free <= all.len() == taken@.len() <= usize::MAX,
            !all.contains(candidate(base@, extension@, free)),
            name@ == candidate(base@, extension@, counter as nat),
            ending@ == "."@ + extension@,
            counter <= free,
            forall|m: nat| m < counter ==> all.contains(#[trigger] candidate(base@, extension@, m)),
        decreases free - counter,
    {
        assert(counter < free);
        counter += 1;
        let number = numeral(counter);
        name = glue(glue(glue(base, "_").as_str(), number.as_str()).as_str(), ending.as_str());
        assert(name@ =~= candidate(base@, extension@, counter as nat));
    }
    assert(is_first_free(name@, base@, extension@, all, counter as nat));
    name
}

/// What the names of the copies of one kind begin with.
pub open spec fn prefix_of(app: Seq<char>, kind: Seq<char>) -> Seq<char> {
    app + "_"@ + kind + "_"@
}

/// What the names of the copies of one kind begin with.
pub fn backup_prefix(app: &str, kind: &str) -> (r: String)
    ensures
        r@ == prefix_of(app@, kind@),
{
    glue(glue(glue(app, "_").as_str(), kind).as_str(), "_")
}

/// `chrono::Local::now` and `chrono::DateTime::format`: the local time, as
/// `20250101_120000`. Nothing is claimed of it, as it depends on when and where it is
/// asked for.
#[verifier::external_body]
fn timestamp() -> (r: String) {
    chrono::Local::now().format("%Y%m%d_%H%M%S").to_string()
}

/// A name for a copy that is made now, and that is not taken.
pub fn backup_name(app: &str, kind: &str, extension: &str, taken: &Vec<String>) -> (r: String)
    ensures
        exists|stamp: Seq<char>, n: nat| #[trigger]
            is_first_free(
                r@,
                prefix_of(app@, kind@) + stamp,
                extension@,
                texts(taken@),
                n,
            ),
{
    let stamp = timestamp();
    let base = glue(backup_prefix(app, kind).as_str(), stamp.as_str());
    let r = free_name(base.as_str(), extension, taken);
    proof {
        let n = choose|n: nat| #[trigger] is_first_free(r@, base@, extension@, texts(taken@), n);
        assert(is_first_free(r@, prefix_of(app@, kind@) + stamp@, extension@, texts(taken@), n));
    }
    r
}

// ----------------------------------------------------------------------------
// Retention
// ----------------------------------------------------------------------------

/// A file among the copies.
#[derive(Debug)]
pub struct BackupFile {
    pub name: String,
    /// When it was last changed, in nanoseconds from some point in time on, where
    /// that is known.
    pub modified: Option<i128>,
}

/// The content of a [`BackupFile`].
pub struct BackupView {
    pub name: Seq<char>,
    pub modified: Option<i128>,
}

impl View for BackupFile {
    type V = BackupView;

    open spec fn view(&self) -> BackupView {
        BackupView { name: self.name@, modified: self.modified }
    }
}

/// The contents of some files.
pub open spec fn file_views(files: Seq<BackupFile>) -> Seq<BackupView> {
    Seq::new(files.len(), |i: int| files[i]@)
}

/// The position of the last dot of a text, among its first `n` characters.
pub open spec fn last_dot(s: Seq<char>, n: nat) -> Option<nat>
    decreases n,
{
    if n == 0 || n > s.len() {
        None
    } else if s[n - 1] == '.' {
        Some((n - 1) as nat)
    } else {
        last_dot(s, (n - 1) as nat)
    }
}

/// What stands behind the last dot of a name; a dot at its beginning does not count.
pub open spec fn extension_of(name: Seq<char>) -> Option<Seq<char>> {
    match last_dot(name, name.len()) {
        Some(i) => if i > 0 {
            Some(name.subrange(i as int + 1, name.len() as int))
        } else {
            None
        },
        None => None,
    }
}

/// A name is that of a copy of one kind: it has the prefix and one of the extensions.
pub open spec fn is_backup(name: Seq<char>, prefix: Seq<char>, extensions: Seq<Seq<char>>) -> bool {
    begins_with(name, prefix) && (extension_of(name) matches Some(e) && extensions.contains(e))
}

/// A time is later than another; an unknown time is earlier than every known one.
pub open spec fn is_later(a: Option<i128>, b: Option<i128>) -> bool {
    match (a, b) {
        (Some(x), Some(y)) => x > y,
        (Some(_), None) => true,
        _ => false,
    }
}

/// Files in order of time, and one more: behind all that are not later.
pub open spec fn placed(files: Seq<BackupView>, f: BackupView) -> Seq<BackupView>
    decreases files.len(),
{
    if files.len() > 0 && is_later(files.last().modified, f.modified) {
        placed(files.drop_last(), f).push(files.last())
    } else {
        files.push(f)
    }
}

/// Files in order of time; those of the same time stay in their order.
pub open spec fn by_age(files: Seq<BackupView>) -> Seq<BackupView>
    decreases files.len(),
{
    if files.len() == 0 {
        files
    } else {
        placed(by_age(files.drop_last()), files.last())
    }
}

/// The copies of one kind.
pub open spec fn backups_among(
    files: Seq<BackupView>,
    prefix: Seq<char>,
    extensions: Seq<Seq<char>>,
) -> Seq<BackupView> {
    files.filter(|f: BackupView| is_backup(f.name, prefix, extensions))
}

/// The copies that are to be removed: the oldest, so that `retain` are left.
pub open spec fn expired(
    files: Seq<BackupView>,
    prefix: Seq<char>,
    extensions: Seq<Seq<char>>,
    retain: nat,
) -> Seq<BackupView> {
    let found = by_age(backups_among(files, prefix, extensions));
    if found.len() <= retain {
        Seq::empty()
    } else {
        found.take(found.len() - retain)
    }
}

/// The last dot of a text is the one in front of an ending that has none.
proof fn lemma_last_dot(front: Seq<char>, ending: Seq<char>, m: nat)
    requires
        m <= ending.len(),
        !ending.contains('.'),
    ensures
        last_dot(front + "."@ + ending, front.len() + 1 + m) == Some(front.len()),
    decreases m,
{
    reveal_strlit(".");
    let s = front + "."@ + ending;
    if m > 0 {
        assert(s[front.len() + m as int] == ending[m - 1]);
        assert(ending.contains(ending[m - 1]));
        lemma_last_dot(front, ending, (m - 1) as nat);
    } else {
        assert(s[front.len() as int] == '.');
    }
}

/// A copy counts among the copies of its kind, whenever it is made.
pub proof fn law_backup_counts(
    app: Seq<char>,
    kind: Seq<char>,
    stamp: Seq<char>,
    extension: Seq<char>,
    n: nat,
    extensions: Seq<Seq<char>>,
)
    requires
        !extension.contains('.'),
        extensions.contains(extension),
    ensures
        is_backup(
            candidate(prefix_of(app, kind) + stamp, extension, n),
            prefix_of(app, kind),
            extensions,
        ),
{
    reveal_strlit("_");
    reveal_strlit(".");
    let prefix = prefix_of(app, kind);
    let base = prefix + stamp;
    let name = candidate(base, extension, n);
    let front = if n == 0 {
        base
    } else {
        base + "_"@ + decimal(n)
    };
    assert(name == front + "."@ + extension);
    lemma_last_dot(front, extension, extension.len());
    assert(name.subrange(front.len() as int + 1, name.len() as int) =~= extension);
    assert(name.subrange(0, prefix.len() as int) =~= prefix);
}

proof fn lemma_placed(files: Seq<BackupView>, f: BackupView)
    requires
        in_order(files),
    ensures
        in_order(placed(files, f)),
        placed(files, f).len() == files.len() + 1,
        placed(files, f).to_multiset() == files.to_multiset().insert(f),
        placed(files, f).len() > 0,
        placed(files, f).last() == (if files.len() > 0 && is_later(
            files.last().modified,
            f.modified,
        ) {
            files.last()
        } else {
            f
        }),
    decreases files.len(),
{
    broadcast use vstd::seq_lib::group_to_multiset_ensures;

    let after = placed(files, f);
    if files.len() > 0 && is_later(files.last().modified, f.modified) {
        let front = files.drop_last();
        assert forall|i: int, j: int| 0 <= i < j < front.len() implies !is_later(
            (#[trigger] front[i]).modified,
            (#[trigger] front[j]).modified,
        ) by {
            assert(front[i] == files[i] && front[j] == files[j]);
        }
        lemma_placed(front, f);
        let inner = placed(front, f);
        lemma_within(front, f, files.last());
        assert(files =~= front.push(files.last()));
        assert forall|i: int, j: int| 0 <= i < j < after.len() implies !is_later(
            (#[trigger] after[i]).modified,
            (#[trigger] after[j]).modified,
        ) by {
            if j < inner.len() {
                assert(after[i] == inner[i] && after[j] == inner[j]);
            } else {
                assert(after[i] == inner[i]);
                assert(inner.contains(inner[i]));
            }
        }
        assert(after.to_multiset() =~= files.to_multiset().insert(f));
    } else {
        assert forall|i: int, j: int| 0 <= i < j < after.len() implies !is_later(
            (#[trigger] after[i]).modified,
            (#[trigger] after[j]).modified,
        ) by {
            if j < files.len() {
                assert(after[i] == files[i] && after[j] == files[j]);
            } else {
                assert(after[i] == files[i]);
                if files.len() > 0 && i < files.len() - 1 {
                    assert(!is_later(files[i].modified, files[files.len() - 1].modified));
                }
            }
        }
        assert(after.to_multiset() =~= files.to_multiset().insert(f));
    }
}

/// What is placed among files that are not later than a file is not later than it.
proof fn lemma_within(files: Seq<BackupView>, f: BackupView, last: BackupView)
    requires
        forall|i: int| 0 <= i < files.len() ==> !is_later((#[trigger] files[i]).modified, last.modified),
        !is_later(f.modified, last.modified),
    ensures
        forall|i: int|
            0 <= i < placed(files, f).len() ==> !is_later(
                (#[trigger] placed(files, f)[i]).modified,
                last.modified,
            ),
    decreases files.len(),
{
    if files.len() > 0 && is_later(files.last().modified, f.modified) {
        let front = files.drop_last();
        assert forall|i: int| 0 <= i < front.len() implies !is_later(
            (#[trigger] front[i]).modified,
            last.modified,
        ) by {
            assert(front[i] == files[i]);
        }
        lemma_within(front, f, last);
        let inner = placed(front, f);
        let after = placed(files, f);
        assert forall|i: int| 0 <= i < after.len() implies !is_later(
            (#[trigger] after[i]).modified,
            last.modified,
        ) by {
            if i < inner.len() {
                assert(after[i] == inner[i]);
            } else {
                assert(after[i] == files[files.len() - 1]);
            }
        }
    }
}

/// Files are in order of time.
pub open spec fn in_order(files: Seq<BackupView>) -> bool {
    forall|i: int, j: int|
        0 <= i < j < files.len() ==> !is_later(
            (#[trigger] files[i]).modified,
            (#[trigger] files[j]).modified,
        )
}

/// Putting files in order of time does that, and neither loses nor adds a file.
pub proof fn law_by_age(files: Seq<BackupView>)
    ensures
        in_order(by_age(files)),
        by_age(files).to_multiset() == files.to_multiset(),
        by_age(files).len() == files.len(),
    decreases files.len(),
{
    broadcast use vstd::seq_lib::group_to_multiset_ensures;

    if files.len() > 0 {
        law_by_age(files.drop_last());
        lemma_placed(by_age(files.drop_last()), files.last());
        assert(files =~= files.drop_last().push(files.last()));
    }
}

/// No more than `retain` copies of a kind are left, and none that is left is older
/// than one that is removed. What is removed is a copy of that kind.
pub proof fn law_expired(
    files: Seq<BackupView>,
    prefix: Seq<char>,
    extensions: Seq<Seq<char>>,
    retain: nat,
)
    ensures
        ({
            let found = backups_among(files, prefix, extensions);
            let gone = expired(files, prefix, extensions, retain);
            let left = by_age(found).skip(gone.len() as int);
            &&& gone + left == by_age(found)
            &&& left.len() <= retain
            &&& found.len() <= retain ==> gone.len() == 0
            &&& found.len() > retain ==> left.len() == retain
            &&& forall|i: int, j: int|
                0 <= i < gone.len() && 0 <= j < left.len() ==> !is_later(
                    (#[trigger] gone[i]).modified,
                    (#[trigger] left[j]).modified,
                )
            &&& forall|i: int|
                0 <= i < gone.len() ==> is_backup((#[trigger] gone[i]).name, prefix, extensions)
                    && files.contains(gone[i])
        }),
{
    broadcast use vstd::seq_lib::group_to_multiset_ensures;

    let found = backups_among(files, prefix, extensions);
    let all = by_age(found);
    let gone = expired(files, prefix, extensions, retain);
    let left = all.skip(gone.len() as int);
    law_by_age(found);
    assert(gone + left =~= all);
    assert forall|i: int, j: int| 0 <= i < gone.len() && 0 <= j < left.len() implies !is_later(
        (#[trigger] gone[i]).modified,
        (#[trigger] left[j]).modified,
    ) by {
        assert(gone[i] == all[i]);
        assert(left[j] == all[gone.len() + j]);
    }
    assert forall|i: int| 0 <= i < gone.len() implies is_backup(
        (#[trigger] gone[i]).name,
        prefix,
        extensions,
    ) && files.contains(gone[i]) by {
        assert(all.contains(all[i]));
        assert(all.to_multiset().count(all[i]) > 0);
        assert(found.contains(all[i]));
        lemma_found(files, prefix, extensions, all[i]);
    }
}

/// What is found among files is a file, and a copy of the kind.
proof fn lemma_found(
    files: Seq<BackupView>,
    prefix: Seq<char>,
    extensions: Seq<Seq<char>>,
    f: BackupView,
)
    requires
        backups_among(files, prefix, extensions).contains(f),
    ensures
        files.contains(f),
        is_backup(f.name, prefix, extensions),
    decreases files.len(),
{
    reveal(Seq::filter);
    let found = backups_among(files, prefix, extensions);
    let i = choose|i: int| 0 <= i < found.len() && found[i] == f;
    if files.len() > 0 {
        let front = files.drop_last();
        let before = backups_among(front, prefix, extensions);
        if i < before.len() {
            assert(before[i] == f);
            lemma_found(front, prefix, extensions, f);
            let j = choose|j: int| 0 <= j < front.len() && front[j] == f;
            assert(files[j] == f);
        } else {
            assert(files[files.len() - 1] == f);
        }
    }
}

/// The extension of a name.
fn find_extension(name: &Vec<char>) -> (r: Option<usize>)
    ensures
        match r {
            Some(i) => 0 < i < name@.len() && last_dot(name@, name@.len()) == Some(i as nat),
            None => extension_of(name@) is None,
        },
{
    let mut n: usize = name.len();
    while n > 0
        invariant
            n <= name@.len(),
            last_dot(name@, name@.len()) == last_dot(name@, n as nat),
        decreases n,
    {
        if name[n - 1] == '.' {
            return if n > 1 {
                Some(n - 1)
            } else {
                None
            };
        }
        n -= 1;
    }
    None
}

/// Whether a name is that of a copy of one kind.
pub fn names_backup(name: &str, prefix: &str, extensions: &Vec<String>) -> (r: bool)
    ensures
        r == is_backup(name@, prefix@, texts(extensions@)),
{
    if !starts_with(name, prefix) {
        return false;
    }
    let chars = chars_of(name);
    match find_extension(&chars) {
        Some(i) => {
            assert(chars.len() == chars@.len());
            let extension = name.substring_char(i + 1, chars.len());
            assert(extension@ =~= name@.subrange(i + 1, name@.len() as int));
            among(extensions, extension)
        },
        None => false,
    }
}

/// Whether a time is later than another.
fn later(a: &Option<i128>, b: &Option<i128>) -> (r: bool)
    ensures
        r == is_later(*a, *b),
{
    match (a, b) {
        (Some(x), Some(y)) => *x > *y,
        (Some(_), None) => true,
        _ => false,
    }
}

/// The names of the copies that are to be removed, the oldest first, so that no more
/// than `retain` of the kind are left.
pub fn expired_backups(
    files: &Vec<BackupFile>,
    prefix: &str,
    extensions: &Vec<String>,
    retain: usize,
) -> (r: Vec<String>)
    ensures
        texts(r@) == expired(
            file_views(files@),
            prefix@,
            texts(extensions@),
            retain as nat,
        ).map_values(|f: BackupView| f.name),
{
    let ghost all = file_views(files@);
    let ghost p = |f: BackupView| is_backup(f.name, prefix@, texts(extensions@));
    let mut order: Vec<usize> = Vec::new();
    let mut i: usize = 0;
    proof {
        reveal(Seq::filter);
        assert(picked_files(all, order@) =~= by_age(all.take(0).filter(p)));
    }
    while i < files.len()
        invariant
            i <= files@.len(),
            all == file_views(files@),
            p == (|f: BackupView| is_backup(f.name, prefix@, texts(extensions@))),
            forall|j: int| 0 <= j < order@.len() ==> #[trigger] order@[j] < files@.len(),
            picked_files(all, order@) == by_age(all.take(i as int).filter(p)),
        decreases files@.len() - i,
    {
        let ghost before = all.take(i as int).filter(p);
        proof {
            reveal(Seq::filter);
            assert(all.take(i + 1).drop_last() =~= all.take(i as int));
            assert(all.take(i + 1).last() == files@[i as int]@);
        }
        if names_backup(files[i].name.as_str(), prefix, extensions) {
            assert(all.take(i + 1).filter(p) == before.push(all[i as int]));
            assert(before.push(all[i as int]).drop_last() =~= before);
            order = place(files, order, i);
        }
        i += 1;
    }
    assert(all.take(i as int) =~= all);
    let mut names: Vec<String> = Vec::new();
    let n: usize = order.len();
    let ghost found = by_age(backups_among(all, prefix@, texts(extensions@)));
    let ghost gone = expired(all, prefix@, texts(extensions@), retain as nat);
    assert(picked_files(all, order@) == found);
    assert(found.len() == n);
    if n > retain {
        let mut j: usize = 0;
        while j < n - retain
            invariant
                j <= n - retain,
                n == order@.len(),
                n > retain,
                all == file_views(files@),
                found == picked_files(all, order@),
                gone == found.take(n - retain),
                forall|j: int| 0 <= j < order@.len() ==> #[trigger] order@[j] < files@.len(),
                names@.len() == j,
                forall|k: int| 0 <= k < j ==> (#[trigger] names@[k])@ == gone[k].name,
            decreases n - retain - j,
        {
            let at: usize = order[j];
            assert(gone[j as int] == all[order@[j as int] as int]);
            names.push(files[at].name.clone());
            j += 1;
        }
    }
    assert(texts(names@) =~= gone.map_values(|f: BackupView| f.name));
    names
}

/// The files at some positions.
pub open spec fn picked_files(files: Seq<BackupView>, order: Seq<usize>) -> Seq<BackupView> {
    Seq::new(order.len(), |i: int| files[order[i] as int])
}

/// Positions in order of time, and one more.
fn place(files: &Vec<BackupFile>, order: Vec<usize>, at: usize) -> (r: Vec<usize>)
    requires
        at < files@.len(),
        forall|j: int| 0 <= j < order@.len() ==> #[trigger] order@[j] < files@.len(),
    ensures
        forall|j: int| 0 <= j < r@.len() ==> #[trigger] r@[j] < files@.len(),
        picked_files(file_views(files@), r@) == placed(
            picked_files(file_views(files@), order@),
            file_views(files@)[at as int],
        ),
    decreases order@.len(),
{
    let ghost all = file_views(files@);
    let ghost before = picked_files(all, order@);
    let ghost start = order@;
    let mut order = order;
    let n: usize = order.len();
    if n > 0 {
        let last: usize = order[n - 1];
        assert(before.last() == all[last as int]);
        if later(&files[last].modified, &files[at].modified) {
            let _ = order.pop();
            assert(picked_files(all, order@) =~= before.drop_last());
            let mut r = place(files, order, at);
            let ghost inner = picked_files(all, r@);
            r.push(last);
            assert(picked_files(all, r@) =~= inner.push(all[last as int]));
            return r;
        }
    }
    order.push(at);
    assert(picked_files(all, order@) =~= before.push(all[at as int]));
    order
}

} // verus!
