//! Anonymized file names: extensions, the name a file receives, and the plan
//! of moves that renames a whole directory without ever overwriting a file.
use vstd::prelude::*;
use crate::text::{decimal, digit_char, push_char, push_decimal, push_str, same_text};

verus! {

/// One entry of a directory listing.
#[derive(Clone, Debug)]
pub struct Entry {
    pub name: String,
    pub is_dir: bool,
}

/// One relocation of a file inside a directory, from one name to another.
#[derive(Clone, Debug)]
pub struct Move {
    pub from: String,
    pub to: String,
}

impl View for Move {
    type V = (Seq<char>, Seq<char>);

    open spec fn view(&self) -> (Seq<char>, Seq<char>) {
        (self.from@, self.to@)
    }
}

/// Why a directory cannot be anonymized.
#[derive(Clone, Debug)]
pub enum AnonymizeError {
    /// A file whose name has no extension.
    MissingExtension(String),
    /// A name that two files would receive, or that a subdirectory holds.
    NameCollision(String),
}

/// The character sequences of a sequence of strings.
pub open spec fn views(v: Seq<String>) -> Seq<Seq<char>> {
    v.map_values(|s: String| s@)
}

/// Index of the last dot in `s`, or -1 when there is none.
pub open spec fn last_dot(s: Seq<char>) -> int
    decreases s.len(),
{
    if s.len() == 0 {
        -1
    } else if s.last() == '.' {
        s.len() - 1
    } else {
        last_dot(s.drop_last())
    }
}

/// The extension of a file name: what follows its last dot, provided that dot
/// is not the first character. The name `..` has none.
pub open spec fn extension(s: Seq<char>) -> Option<Seq<char>> {
    if s == seq!['.', '.'] {
        None
    } else if last_dot(s) <= 0 {
        None
    } else {
        Some(s.subrange(last_dot(s) + 1, s.len() as int))
    }
}

/// The extension that an anonymized file carries: `txt` becomes `csv`, any
/// other is kept.
pub open spec fn renamed_extension(ext: Seq<char>) -> Seq<char> {
    if ext == seq!['t', 'x', 't'] {
        seq!['c', 's', 'v']
    } else {
        ext
    }
}

/// The anonymized name built from the identifier `n` and an original extension.
pub open spec fn anonymized(n: nat, ext: Seq<char>) -> Seq<char> {
    decimal(n).push('.') + renamed_extension(ext)
}

proof fn lemma_last_dot_prefix(s: Seq<char>, i: int)
    requires
        0 <= i <= s.len(),
        forall|j: int| i <= j < s.len() ==> s[j] != '.',
    ensures
        last_dot(s) == last_dot(s.subrange(0, i)),
    decreases s.len() - i,
{
    if i == s.len() {
        assert(s.subrange(0, i) =~= s);
    } else {
        let t = s.drop_last();
        lemma_last_dot_prefix(t, i);
        assert(t.subrange(0, i) =~= s.subrange(0, i));
    }
}

proof fn lemma_last_dot_shape(s: Seq<char>)
    ensures
        -1 <= last_dot(s) < s.len(),
        last_dot(s) >= 0 ==> s[last_dot(s)] == '.',
        forall|i: int| last_dot(s) < i < s.len() ==> s[i] != '.',
    decreases s.len(),
{
    if s.len() > 0 && s.last() != '.' {
        let t = s.drop_last();
        lemma_last_dot_shape(t);
        assert forall|i: int| last_dot(s) < i < s.len() implies s[i] != '.' by {
            if i < s.len() - 1 {
                assert(s[i] == t[i]);
            }
        }
    }
}

proof fn lemma_last_dot_concat(x: Seq<char>, y: Seq<char>)
    ensures
        last_dot(x + y) == if last_dot(y) >= 0 { x.len() + last_dot(y) } else { last_dot(x) },
    decreases y.len(),
{
    if y.len() == 0 {
        assert(x + y =~= x);
    } else {
        assert((x + y).drop_last() =~= x + y.drop_last());
        lemma_last_dot_concat(x, y.drop_last());
    }
}

/// An anonymized name keeps, as its extension, the renamed original one.
pub proof fn lemma_anonymized_extension(n: nat, f: Seq<char>)
    requires
        extension(f).is_some(),
    ensures
        extension(anonymized(n, extension(f)->0)) == Some(renamed_extension(extension(f)->0)),
{
    let ext = extension(f)->0;
    let r = renamed_extension(ext);
    let d = decimal(n).push('.');
    lemma_last_dot_shape(f);
    lemma_decimal_shape(n);
    assert(forall|i: int| 0 <= i < ext.len() ==> ext[i] == f[last_dot(f) + 1 + i]);
    assert forall|i: int| 0 <= i < r.len() implies r[i] != '.' by {
        if ext == seq!['t', 'x', 't'] {
            assert(r == seq!['c', 's', 'v']);
        }
    }
    lemma_last_dot_shape(r);
    lemma_last_dot_concat(d, r);
    assert(d.drop_last() =~= decimal(n));
    assert(last_dot(d) == decimal(n).len());
    let a = anonymized(n, ext);
    assert(a[0] != '.');
    assert(a.subrange(last_dot(a) + 1, a.len() as int) =~= r);
}

/// Tildes in front of a name leave its extension as it was.
pub proof fn lemma_tildes_keep_extension(j: nat, f: Seq<char>)
    requires
        j >= 1,
        extension(f).is_some(),
    ensures
        extension(tildes(j) + f) == extension(f),
{
    lemma_last_dot_shape(f);
    lemma_last_dot_concat(tildes(j), f);
    let g = tildes(j) + f;
    assert(g[0] == '~');
    assert(g.subrange(last_dot(g) + 1, g.len() as int) =~= f.subrange(last_dot(f) + 1, f.len() as int));
}

/// The extension of `name`, if it has one.
pub fn extension_of(name: &str) -> (r: Option<String>)
    ensures
        r.is_some() == extension(name@).is_some(),
        r.is_some() ==> r->0@ == extension(name@)->0,
{
    let n = name.unicode_len();
    let mut i: usize = n;
    while i > 0 && name.get_char(i - 1) != '.'
        invariant
            n == name@.len(),
            i <= n,
            forall|j: int| i <= j < n ==> name@[j] != '.',
        decreases i,
    {
        i = i - 1;
    }
    proof {
        lemma_last_dot_prefix(name@, i as int);
        if i > 0 {
            assert(name@.subrange(0, i as int).last() == '.');
        }
    }
    if i <= 1 {
        return None;
    }
    if n == 2 && name.get_char(0) == '.' && name.get_char(1) == '.' {
        assert(name@ =~= seq!['.', '.']);
        return None;
    }
    assert(name@ != seq!['.', '.']) by {
        if name@ == seq!['.', '.'] {
            assert(name@[1] == '.');
        }
    }
    let mut ext = String::new();
    let mut k: usize = i;
    while k < n
        invariant
            n == name@.len(),
            i <= k <= n,
            ext@ == name@.subrange(i as int, k as int),
        decreases n - k,
    {
        let c = name.get_char(k);
        push_char(&mut ext, c);
        assert(name@.subrange(i as int, k + 1) =~= name@.subrange(i as int, k as int).push(c));
        k = k + 1;
    }
    Some(ext)
}

fn is_txt(ext: &String) -> (r: bool)
    ensures
        r == (ext@ == seq!['t', 'x', 't']),
{
    if ext.unicode_len() != 3 {
        return false;
    }
    let r = ext.as_str().get_char(0) == 't' && ext.as_str().get_char(1) == 'x'
        && ext.as_str().get_char(2) == 't';
    assert(r ==> ext@ =~= seq!['t', 'x', 't']);
    r
}

/// The name a file receives for the identifier `n`, given its original extension.
pub fn anonymized_name(n: u64, ext: &String) -> (r: String)
    ensures
        r@ == anonymized(n as nat, ext@),
{
    let mut s = String::new();
    push_decimal(&mut s, n);
    push_char(&mut s, '.');
    if is_txt(ext) {
        push_str(&mut s, "csv");
        proof {
            reveal_strlit("csv");
        }
        assert(s@ =~= anonymized(n as nat, ext@));
    } else {
        push_str(&mut s, ext.as_str());
        assert(s@ =~= anonymized(n as nat, ext@));
    }
    s
}


/// Names of the entries that are not directories, in listing order.
pub open spec fn file_names(es: Seq<Entry>) -> Seq<Seq<char>>
    decreases es.len(),
{
    if es.len() == 0 {
        seq![]
    } else if es.last().is_dir {
        file_names(es.drop_last())
    } else {
        file_names(es.drop_last()).push(es.last().name@)
    }
}

/// Names of the entries that are directories, in listing order.
pub open spec fn dir_names(es: Seq<Entry>) -> Seq<Seq<char>>
    decreases es.len(),
{
    if es.len() == 0 {
        seq![]
    } else if es.last().is_dir {
        dir_names(es.drop_last()).push(es.last().name@)
    } else {
        dir_names(es.drop_last())
    }
}

/// Names of all entries.
pub open spec fn entry_names(es: Seq<Entry>) -> Seq<Seq<char>> {
    Seq::new(es.len(), |i: int| es[i].name@)
}

pub open spec fn all_have_extension(files: Seq<Seq<char>>) -> bool {
    forall|k: int| 0 <= k < files.len() ==> extension(#[trigger] files[k]).is_some()
}

/// The name each file receives: its identifier, then its renamed extension.
pub open spec fn targets(files: Seq<Seq<char>>, numbers: Seq<u64>) -> Seq<Seq<char>> {
    Seq::new(files.len(), |k: int| anonymized(numbers[k] as nat, extension(files[k])->0))
}

/// `j` tildes.
pub open spec fn tildes(j: nat) -> Seq<char> {
    Seq::new(j, |i: int| '~')
}

/// The least `j`, from `j` on, for which `j` tildes before `name` give a name
/// that `taken` does not hold; the search stops past `taken.len() + 1`.
pub open spec fn first_free(taken: Seq<Seq<char>>, name: Seq<char>, j: nat) -> nat
    decreases taken.len() + 2 - j,
{
    if j > taken.len() + 1 || !taken.contains(tildes(j) + name) {
        j
    } else {
        first_free(taken, name, j + 1)
    }
}

/// The name under which a file waits while its own name is still wanted by
/// another file: its name behind as few tildes as make it a name that no
/// entry of the directory holds.
pub open spec fn staging_name(taken: Seq<Seq<char>>, name: Seq<char>) -> Seq<char> {
    tildes(first_free(taken, name, 1)) + name
}

/// File `k` must leave its name before the renames start, because another
/// file is to receive that name.
pub open spec fn staged(files: Seq<Seq<char>>, targets: Seq<Seq<char>>, k: int) -> bool {
    files[k] != targets[k] && targets.contains(files[k])
}

/// No two files receive one name, and no file receives the name of a directory.
pub open spec fn collision_free(es: Seq<Entry>, files: Seq<Seq<char>>, targets: Seq<Seq<char>>) -> bool {
    &&& targets.no_duplicates()
    &&& forall|k: int| 0 <= k < targets.len() ==> !dir_names(es).contains(#[trigger] targets[k])
}

/// Moves that take the first `n` staged files to their waiting names.
pub open spec fn staging_moves(
    taken: Seq<Seq<char>>,
    files: Seq<Seq<char>>,
    targets: Seq<Seq<char>>,
    n: int,
) -> Seq<(Seq<char>, Seq<char>)>
    decreases n,
{
    if n <= 0 {
        seq![]
    } else if staged(files, targets, n - 1) {
        staging_moves(taken, files, targets, n - 1).push((files[n - 1], staging_name(taken, files[n - 1])))
    } else {
        staging_moves(taken, files, targets, n - 1)
    }
}

/// Where file `k` stands once the staging moves are done.
pub open spec fn current_name(taken: Seq<Seq<char>>, files: Seq<Seq<char>>, targets: Seq<Seq<char>>, k: int) -> Seq<char> {
    if staged(files, targets, k) {
        staging_name(taken, files[k])
    } else {
        files[k]
    }
}

/// Moves that give the first `n` files their new names; a file that already
/// bears its new name is not moved.
pub open spec fn final_moves(
    taken: Seq<Seq<char>>,
    files: Seq<Seq<char>>,
    targets: Seq<Seq<char>>,
    n: int,
) -> Seq<(Seq<char>, Seq<char>)>
    decreases n,
{
    if n <= 0 {
        seq![]
    } else if files[n - 1] == targets[n - 1] {
        final_moves(taken, files, targets, n - 1)
    } else {
        final_moves(taken, files, targets, n - 1).push(
            (current_name(taken, files, targets, n - 1), targets[n - 1]),
        )
    }
}

/// The whole plan for a directory whose entries are named `taken`: every
/// staging move, then every final move.
pub open spec fn rename_plan(taken: Seq<Seq<char>>, files: Seq<Seq<char>>, targets: Seq<Seq<char>>) -> Seq<(Seq<char>, Seq<char>)> {
    staging_moves(taken, files, targets, files.len() as int) + final_moves(taken, files, targets, files.len() as int)
}

proof fn lemma_tildes_distinct(a: nat, b: nat, name: Seq<char>)
    requires
        a != b,
    ensures
        tildes(a) + name != tildes(b) + name,
{
    assert((tildes(a) + name).len() != (tildes(b) + name).len());
}

/// Some count of tildes from 1 to `taken.len() + 1` gives a free name.
proof fn lemma_some_tildes_free(taken: Seq<Seq<char>>, name: Seq<char>)
    ensures
        exists|t: nat| 1 <= t <= taken.len() + 1 && !taken.contains(#[trigger] (tildes(t) + name)),
{
    if forall|t: nat| 1 <= t <= taken.len() + 1 ==> taken.contains(#[trigger] (tildes(t) + name)) {
        let n = taken.len() + 1;
        let cands = Seq::new(n, |i: int| tildes((i + 1) as nat) + name);
        assert(cands.no_duplicates()) by {
            assert forall|i: int, j: int| 0 <= i < n && 0 <= j < n && i != j implies cands[i] != cands[j] by {
                lemma_tildes_distinct((i + 1) as nat, (j + 1) as nat, name);
            }
        }
        cands.unique_seq_to_set();
        assert(cands.to_set().subset_of(taken.to_set())) by {
            assert forall|x: Seq<char>| cands.to_set().contains(x) implies taken.to_set().contains(x) by {
                let i = choose|i: int| 0 <= i < cands.len() && cands[i] == x;
                assert(taken.contains(tildes((i + 1) as nat) + name));
            }
        }
        taken.lemma_cardinality_of_set();
        vstd::seq_lib::seq_to_set_is_finite(taken);
        vstd::set_lib::lemma_len_subset(cands.to_set(), taken.to_set());
        assert(false);
    }
}

proof fn lemma_first_free(taken: Seq<Seq<char>>, name: Seq<char>, j: nat)
    requires
        j >= 1,
        forall|t: nat| 1 <= t < j ==> taken.contains(#[trigger] (tildes(t) + name)),
    ensures
        first_free(taken, name, j) >= 1,
        !taken.contains(tildes(first_free(taken, name, j)) + name),
    decreases taken.len() + 2 - j,
{
    if j > taken.len() + 1 {
        lemma_some_tildes_free(taken, name);
    } else if taken.contains(tildes(j) + name) {
        lemma_first_free(taken, name, j + 1);
    }
}

/// A waiting name is free, starts with a tilde, and ends with the file's own name.
pub proof fn lemma_staging_name(taken: Seq<Seq<char>>, name: Seq<char>)
    ensures
        !taken.contains(staging_name(taken, name)),
        first_free(taken, name, 1) >= 1,
        staging_name(taken, name)[0] == '~',
        staging_name(taken, name).len() == first_free(taken, name, 1) + name.len(),
{
    lemma_first_free(taken, name, 1);
}

/// Two names that do not start with a tilde keep distinct waiting names.
pub proof fn lemma_staging_name_injective(taken: Seq<Seq<char>>, a: Seq<char>, b: Seq<char>)
    requires
        a.len() > 0 && a[0] != '~',
        b.len() > 0 && b[0] != '~',
        staging_name(taken, a) == staging_name(taken, b),
    ensures
        a == b,
{
    let ja = first_free(taken, a, 1) as int;
    let jb = first_free(taken, b, 1) as int;
    let w = staging_name(taken, a);
    if ja < jb {
        assert(w[ja] == a[0]);
        assert(staging_name(taken, b)[ja] == '~');
    } else if jb < ja {
        assert(staging_name(taken, b)[jb] == b[0]);
        assert(w[jb] == '~');
    } else {
        assert(a =~= w.subrange(ja, w.len() as int));
        assert(b =~= staging_name(taken, b).subrange(jb, w.len() as int));
    }
}

/// The waiting name of `name` among the entries `all`.
fn find_staging_name(all: &Vec<String>, name: &String) -> (r: String)
    ensures
        r@ == staging_name(views(all@), name@),
{
    let ghost av = views(all@);
    let ghost mut j: int = 1;
    let mut cand = String::new();
    push_char(&mut cand, '~');
    push_str(&mut cand, name.as_str());
    assert(cand@ =~= tildes(1) + name@);
    loop
        invariant
            av == views(all@),
            1 <= j <= av.len() + 1,
            cand@ == tildes(j as nat) + name@,
            forall|t: nat| 1 <= t < j ==> av.contains(#[trigger] (tildes(t) + name@)),
            first_free(av, name@, 1) == first_free(av, name@, j as nat),
        decreases av.len() + 1 - j,
    {
        if !contains_name(all, &cand) {
            return cand;
        }
        proof {
            if j == av.len() + 1 {
                lemma_some_tildes_free(av, name@);
                let t = choose|t: nat| 1 <= t <= av.len() + 1 && !av.contains(#[trigger] (tildes(t) + name@));
                assert(t < j || t == j);
            }
            j = j + 1;
        }
        let mut next = String::new();
        push_char(&mut next, '~');
        push_str(&mut next, cand.as_str());
        assert(next@ =~= tildes(j as nat) + name@);
        cand = next;
    }
}

pub open spec fn move_views(v: Seq<Move>) -> Seq<(Seq<char>, Seq<char>)> {
    v.map_values(|m: Move| m@)
}

proof fn lemma_views_push(v: Seq<String>, x: String)
    ensures
        views(v.push(x)) == views(v).push(x@),
{
    assert(views(v.push(x)) =~= views(v).push(x@));
}

proof fn lemma_move_views_push(v: Seq<Move>, x: Move)
    ensures
        move_views(v.push(x)) == move_views(v).push(x@),
{
    assert(move_views(v.push(x)) =~= move_views(v).push(x@));
}

/// Splits a listing into the names of its files, of its directories, and of all entries.
fn split_entries(entries: &Vec<Entry>) -> (r: (Vec<String>, Vec<String>, Vec<String>))
    ensures
        views(r.0@) == file_names(entries@),
        views(r.1@) == dir_names(entries@),
        views(r.2@) == entry_names(entries@),
{
    let mut files: Vec<String> = Vec::new();
    let mut dirs: Vec<String> = Vec::new();
    let mut all: Vec<String> = Vec::new();
    let mut i: usize = 0;
    while i < entries.len()
        invariant
            i <= entries.len(),
            views(files@) == file_names(entries@.subrange(0, i as int)),
            views(dirs@) == dir_names(entries@.subrange(0, i as int)),
            views(all@) == entry_names(entries@.subrange(0, i as int)),
        decreases entries.len() - i,
    {
        let e = &entries[i];
        let ghost pre = entries@.subrange(0, i as int);
        let ghost next = entries@.subrange(0, i + 1);
        assert(next.drop_last() =~= pre);
        assert(next.last() == e);
        assert(next =~= pre.push(entries@[i as int]));
        if e.is_dir {
            dirs.push(e.name.clone());
        } else {
            files.push(e.name.clone());
        }
        let nm = e.name.clone();
        proof {
            lemma_views_push(all@, nm);
            assert(entry_names(next) =~= entry_names(pre).push(nm@));
        }
        all.push(nm);
        assert(views(files@) =~= file_names(next));
        assert(views(dirs@) =~= dir_names(next));
        assert(views(all@) =~= entry_names(next));
        i = i + 1;
    }
    assert(entries@.subrange(0, i as int) =~= entries@);
    (files, dirs, all)
}

/// Tells whether `x` is among `names`.
pub(crate) fn contains_name(names: &Vec<String>, x: &String) -> (r: bool)
    ensures
        r == views(names@).contains(x@),
{
    let mut i: usize = 0;
    while i < names.len()
        invariant
            i <= names.len(),
            forall|j: int| 0 <= j < i ==> names@[j]@ != x@,
        decreases names.len() - i,
    {
        if same_text(&names[i], x) {
            assert(views(names@)[i as int] == x@);
            return true;
        }
        i = i + 1;
    }
    assert(!views(names@).contains(x@)) by {
        if views(names@).contains(x@) {
            let j = choose|j: int| 0 <= j < names@.len() && views(names@)[j] == x@;
            assert(names@[j]@ == x@);
        }
    }
    false
}

/// A name that occurs twice in `names`, if there is one.
pub(crate) fn repeated_name(names: &Vec<String>) -> (r: Option<String>)
    ensures
        r.is_none() == views(names@).no_duplicates(),
        r.is_some() ==> views(names@).contains(r->0@),
{
    let mut i: usize = 0;
    while i < names.len()
        invariant
            i <= names.len(),
            forall|a: int, b: int| 0 <= a < i && 0 <= b < names.len() && a != b ==> names@[a]@ != names@[b]@,
        decreases names.len() - i,
    {
        let mut j: usize = 0;
        while j < names.len()
            invariant
                i < names.len(),
                j <= names.len(),
                forall|a: int, b: int| 0 <= a < i && 0 <= b < names.len() && a != b ==> names@[a]@ != names@[b]@,
                forall|b: int| 0 <= b < j && b != i ==> names@[i as int]@ != names@[b]@,
            decreases names.len() - j,
        {
            if j != i && same_text(&names[i], &names[j]) {
                assert(views(names@)[i as int] == views(names@)[j as int]);
                return Some(names[i].clone());
            }
            j = j + 1;
        }
        i = i + 1;
    }
    None
}

/// Plans the renaming of the files of one directory listing: the `k`-th file
/// receives the identifier `numbers[k]`, and a `txt` extension becomes `csv`.
/// A file whose current name another file is to receive first moves to its
/// waiting name, so that no move ever lands on a file that is still to be
/// renamed. The plan is refused only for a file without an extension, for two
/// files that would receive one name, or for a subdirectory that bears a new
/// name.
pub fn plan_renames(entries: &Vec<Entry>, numbers: &Vec<u64>) -> (r: Result<Vec<Move>, AnonymizeError>)
    requires
        numbers@.len() == file_names(entries@).len(),
    ensures
        ({
            let files = file_names(entries@);
            match r {
                Ok(moves) => {
                    &&& all_have_extension(files)
                    &&& collision_free(entries@, files, targets(files, numbers@))
                    &&& move_views(moves@) == rename_plan(entry_names(entries@), files, targets(files, numbers@))
                },
                Err(AnonymizeError::MissingExtension(name)) => files.contains(name@) && extension(name@).is_none(),
                Err(AnonymizeError::NameCollision(_)) => {
                    &&& all_have_extension(files)
                    &&& !collision_free(entries@, files, targets(files, numbers@))
                },
            }
        }),
        all_have_extension(file_names(entries@)) && collision_free(
            entries@,
            file_names(entries@),
            targets(file_names(entries@), numbers@),
        ) ==> r.is_ok(),
{
    let (files, dirs, all) = split_entries(entries);
    let ghost fv = file_names(entries@);
    let ghost dv = dir_names(entries@);
    let ghost av = entry_names(entries@);
    let mut new_names: Vec<String> = Vec::new();
    let mut k: usize = 0;
    while k < files.len()
        invariant
            views(files@) == fv,
            fv == file_names(entries@),
            fv.len() == numbers@.len(),
            k <= files.len(),
            forall|j: int| 0 <= j < k ==> extension(#[trigger] fv[j]).is_some(),
            views(new_names@) =~= targets(fv, numbers@).subrange(0, k as int),
        decreases files.len() - k,
    {
        assert(files@[k as int]@ == fv[k as int]);
        match extension_of(files[k].as_str()) {
            None => {
                assert(fv[k as int] == files@[k as int]@);
                assert(fv.contains(files@[k as int]@));
                assert(extension(files@[k as int]@).is_none());
                return Err(AnonymizeError::MissingExtension(files[k].clone()));
            },
            Some(ext) => {
                let t = anonymized_name(numbers[k], &ext);
                assert(t@ == targets(fv, numbers@)[k as int]);
                proof {
                    lemma_views_push(new_names@, t);
                }
                new_names.push(t);
            },
        }
        assert(views(new_names@) =~= targets(fv, numbers@).subrange(0, k + 1));
        k = k + 1;
    }
    let ghost tv = targets(fv, numbers@);
    assert(views(new_names@) =~= tv);
    assert(all_have_extension(fv));
    match repeated_name(&new_names) {
        Some(name) => {
            return Err(AnonymizeError::NameCollision(name));
        },
        None => {},
    }
    let mut k: usize = 0;
    while k < new_names.len()
        invariant
            views(new_names@) == tv,
            views(dirs@) == dv,
            fv == file_names(entries@),
            dv == dir_names(entries@),
            tv == targets(fv, numbers@),
            all_have_extension(fv),
            k <= new_names.len(),
            forall|j: int| 0 <= j < k ==> !dv.contains(#[trigger] tv[j]),
        decreases new_names.len() - k,
    {
        assert(tv[k as int] == new_names@[k as int]@);
        if contains_name(&dirs, &new_names[k]) {
            assert(!collision_free(entries@, fv, tv));
            return Err(AnonymizeError::NameCollision(new_names[k].clone()));
        }
        k = k + 1;
    }
    let mut waiting: Vec<bool> = Vec::new();
    let mut k: usize = 0;
    while k < files.len()
        invariant
            views(files@) == fv,
            views(new_names@) == tv,
            fv.len() == tv.len(),
            k <= files.len(),
            waiting@.len() == k,
            forall|j: int| 0 <= j < k ==> waiting@[j] == staged(fv, tv, j),
        decreases files.len() - k,
    {
        assert(fv[k as int] == files@[k as int]@);
        assert(tv[k as int] == new_names@[k as int]@);
        let s = !same_text(&files[k], &new_names[k]) && contains_name(&new_names, &files[k]);
        waiting.push(s);
        k = k + 1;
    }
    assert(collision_free(entries@, fv, tv));
    let mut moves: Vec<Move> = Vec::new();
    let mut k: usize = 0;
    while k < files.len()
        invariant
            views(files@) == fv,
            fv.len() == tv.len(),
            k <= files.len(),
            waiting@.len() == files.len(),
            forall|j: int| 0 <= j < files.len() ==> waiting@[j] == staged(fv, tv, j),
            views(all@) == av,
            move_views(moves@) =~= staging_moves(av, fv, tv, k as int),
        decreases files.len() - k,
    {
        assert(fv[k as int] == files@[k as int]@);
        if waiting[k] {
            let w = find_staging_name(&all, &files[k]);
            let m = Move { from: files[k].clone(), to: w };
            proof {
                lemma_move_views_push(moves@, m);
            }
            moves.push(m);
        }
        assert(move_views(moves@) =~= staging_moves(av, fv, tv, k + 1));
        k = k + 1;
    }
    let mut k: usize = 0;
    while k < files.len()
        invariant
            views(files@) == fv,
            views(new_names@) == tv,
            fv.len() == tv.len(),
            k <= files.len(),
            waiting@.len() == files.len(),
            forall|j: int| 0 <= j < files.len() ==> waiting@[j] == staged(fv, tv, j),
            views(all@) == av,
            move_views(moves@) =~= staging_moves(av, fv, tv, fv.len() as int) + final_moves(av, fv, tv, k as int),
        decreases files.len() - k,
    {
        assert(fv[k as int] == files@[k as int]@);
        assert(tv[k as int] == new_names@[k as int]@);
        if !same_text(&files[k], &new_names[k]) {
            let from = if waiting[k] {
                let w = find_staging_name(&all, &files[k]);
                w
            } else {
                files[k].clone()
            };
            let m = Move { from, to: new_names[k].clone() };
            proof {
                lemma_move_views_push(moves@, m);
            }
            moves.push(m);
        }
        assert(move_views(moves@) =~= staging_moves(av, fv, tv, fv.len() as int) + final_moves(av, fv, tv, k + 1));
        k = k + 1;
    }
    Ok(moves)
}

/// `numbers` holds each of `1..=numbers.len()` exactly once.
pub open spec fn is_identifier_permutation(numbers: Seq<u64>) -> bool {
    &&& numbers.no_duplicates()
    &&& forall|i: int| 0 <= i < numbers.len() ==> 1 <= #[trigger] numbers[i] <= numbers.len()
}

/// Relies on rand's `SliceRandom::shuffle` with the thread-local generator:
/// it only swaps elements, so the same values come back in some order.
#[verifier::external_body]
fn shuffle(v: &mut Vec<u64>)
    ensures
        final(v)@.to_multiset() == old(v)@.to_multiset(),
{
    rand::seq::SliceRandom::shuffle(v.as_mut_slice(), &mut rand::thread_rng())
}

/// The identifiers `1..=n` in a random order.
pub fn shuffled_identifiers(n: usize) -> (r: Vec<u64>)
    ensures
        r@.len() == n,
        is_identifier_permutation(r@),
{
    let mut v: Vec<u64> = Vec::new();
    let mut i: usize = 0;
    while i < n
        invariant
            i <= n,
            v@.len() == i,
            forall|j: int| 0 <= j < i ==> v@[j] == j + 1,
        decreases n - i,
    {
        v.push((i as u64) + 1);
        i = i + 1;
    }
    let ghost before = v@;
    assert(before.no_duplicates());
    shuffle(&mut v);
    proof {
        broadcast use vstd::seq_lib::group_to_multiset_ensures;
        before.lemma_multiset_has_no_duplicates();
        assert(v@.to_multiset().len() == before.to_multiset().len());
        assert(v@.len() == n);
        assert forall|x: u64| v@.to_multiset().contains(x) implies v@.to_multiset().count(x) == 1 by {
            assert(before.to_multiset().contains(x));
        }
        v@.lemma_multiset_has_no_duplicates_conv();
        assert forall|k: int| 0 <= k < v@.len() implies 1 <= #[trigger] v@[k] <= v@.len() by {
            assert(v@.contains(v@[k]));
            assert(before.to_multiset().count(v@[k]) > 0);
            assert(before.contains(v@[k]));
        }
    }
    v
}

pub(crate) proof fn lemma_decimal_shape(n: nat)
    ensures
        decimal(n).len() >= 1,
        n < 10 <==> decimal(n).len() == 1,
        forall|i: int| 0 <= i < decimal(n).len() ==> decimal(n)[i] != '.',
    decreases n,
{
    if n >= 10 {
        lemma_decimal_shape(n / 10);
    }
}

proof fn lemma_digit_char_injective(a: nat, b: nat)
    requires
        a < 10,
        b < 10,
        digit_char(a) == digit_char(b),
    ensures
        a == b,
{
}

proof fn lemma_decimal_injective(a: nat, b: nat)
    requires
        decimal(a) == decimal(b),
    ensures
        a == b,
    decreases a,
{
    lemma_decimal_shape(a);
    lemma_decimal_shape(b);
    if a >= 10 && b >= 10 {
        assert(decimal(a).drop_last() =~= decimal(a / 10));
        assert(decimal(b).drop_last() =~= decimal(b / 10));
        lemma_decimal_injective(a / 10, b / 10);
        assert(decimal(a).last() == digit_char(a % 10));
        assert(decimal(b).last() == digit_char(b % 10));
        lemma_digit_char_injective(a % 10, b % 10);
    } else {
        assert(a < 10 && b < 10);
        assert(decimal(a)[0] == digit_char(a));
        assert(decimal(b)[0] == digit_char(b));
        lemma_digit_char_injective(a, b);
    }
}

/// Two files with different identifiers never receive the same name.
pub proof fn lemma_anonymized_injective(a: nat, ea: Seq<char>, b: nat, eb: Seq<char>)
    requires
        anonymized(a, ea) == anonymized(b, eb),
    ensures
        a == b,
{
    lemma_decimal_shape(a);
    lemma_decimal_shape(b);
    let x = anonymized(a, ea);
    let la = decimal(a).len() as int;
    let lb = decimal(b).len() as int;
    if la < lb {
        assert(x[la] == '.');
        assert(x[la] == decimal(b)[la]);
    } else if lb < la {
        assert(x[lb] == '.');
        assert(x[lb] == decimal(a)[lb]);
    } else {
        assert(decimal(a) =~= x.subrange(0, la));
        assert(decimal(b) =~= x.subrange(0, lb));
        lemma_decimal_injective(a, b);
    }
}

/// Anonymization is a bijection: when the identifiers are a permutation of
/// `1..=N`, for `N` files, every file receives a distinct name, built from
/// its own identifier, and every identifier from 1 to `N` is used once.
pub proof fn lemma_names_bijective(files: Seq<Seq<char>>, numbers: Seq<u64>)
    requires
        numbers.len() == files.len(),
        is_identifier_permutation(numbers),
    ensures
        targets(files, numbers).no_duplicates(),
        forall|k: int|
            0 <= k < files.len() ==> #[trigger] targets(files, numbers)[k] == anonymized(
                numbers[k] as nat,
                extension(files[k])->0,
            ),
        forall|m: u64| 1 <= m <= files.len() ==> #[trigger] numbers.contains(m),
{
    let t = targets(files, numbers);
    assert forall|i: int, j: int| 0 <= i < t.len() && 0 <= j < t.len() && i != j implies t[i] != t[j] by {
        if t[i] == t[j] {
            lemma_anonymized_injective(
                numbers[i] as nat,
                extension(files[i])->0,
                numbers[j] as nat,
                extension(files[j])->0,
            );
        }
    }
    let ints = numbers.map_values(|x: u64| x as int);
    let n = files.len() as int;
    assert(ints.no_duplicates());
    ints.unique_seq_to_set();
    vstd::set_lib::lemma_int_range(1, n + 1);
    assert(ints.to_set().subset_of(vstd::set_lib::set_int_range(1, n + 1))) by {
        assert forall|m: int| ints.to_set().contains(m) implies vstd::set_lib::set_int_range(1, n + 1).contains(m) by {
            let k = choose|k: int| 0 <= k < ints.len() && ints[k] == m;
            assert(1 <= numbers[k] <= n);
        }
    }
    vstd::set_lib::lemma_subset_equality(ints.to_set(), vstd::set_lib::set_int_range(1, n + 1));
    assert forall|m: u64| 1 <= m <= n implies #[trigger] numbers.contains(m) by {
        assert(vstd::set_lib::set_int_range(1, n + 1).contains(m as int));
        assert(ints.to_set().contains(m as int));
        let k = choose|k: int| 0 <= k < ints.len() && ints[k] == m as int;
        assert(numbers[k] == m);
    }
}

/// With identifiers that are a permutation of `1..=N`, the only obstacle to
/// anonymizing a directory whose files all have an extension is a
/// subdirectory bearing one of the new names; a directory without
/// subdirectories is always anonymized.
pub proof fn lemma_permutation_collision_free(es: Seq<Entry>, numbers: Seq<u64>)
    requires
        numbers.len() == file_names(es).len(),
        is_identifier_permutation(numbers),
        forall|k: int|
            0 <= k < numbers.len() ==> !dir_names(es).contains(#[trigger] targets(file_names(es), numbers)[k]),
    ensures
        collision_free(es, file_names(es), targets(file_names(es), numbers)),
{
    lemma_names_bijective(file_names(es), numbers);
}

} // verus!
