//! Flattening one level of nesting: the files of each batch directory move up
//! into the subject directory, and the emptied batches are removed.
use vstd::prelude::*;
use crate::naming::{
    all_have_extension, collision_free, contains_name, dir_names, entry_names, file_names, rename_plan,
    repeated_name, targets, views, Entry,
};
use crate::naming::{is_identifier_permutation, lemma_permutation_collision_free};
use crate::relocation::{apply_moves, lemma_files_are_entries, lemma_files_distinct, lemma_rename_plan_safe};

verus! {

/// A file to take out of a batch: `batch/name` becomes `name` in the subject directory.
#[derive(Clone, Debug)]
pub struct Relocation {
    pub batch: String,
    pub name: String,
}

impl View for Relocation {
    type V = (Seq<char>, Seq<char>);

    open spec fn view(&self) -> (Seq<char>, Seq<char>) {
        (self.batch@, self.name@)
    }
}

/// What consolidating one subject directory does: the moves, in order, then
/// the removal of each batch.
#[derive(Clone, Debug)]
pub struct ConsolidationPlan {
    pub moves: Vec<Relocation>,
    pub removed: Vec<String>,
}

/// Why a subject directory cannot be consolidated.
#[derive(Clone, Debug)]
pub enum ConsolidationError {
    /// The path does not name an existing directory.
    NotADirectory,
    /// A name that two moved files would share, or that the subject directory already holds.
    NameCollision(String),
}

/// Every name of the first `n` batches, batch after batch.
pub open spec fn moved_names(batches: Seq<Seq<Seq<char>>>, n: int) -> Seq<Seq<char>>
    decreases n,
{
    if n <= 0 {
        seq![]
    } else {
        moved_names(batches, n - 1) + batches[n - 1]
    }
}

/// The moves out of the first `n` batches, as (batch, name) pairs.
pub open spec fn batch_moves(dirs: Seq<Seq<char>>, batches: Seq<Seq<Seq<char>>>, n: int) -> Seq<(Seq<char>, Seq<char>)>
    decreases n,
{
    if n <= 0 {
        seq![]
    } else {
        batch_moves(dirs, batches, n - 1) + batches[n - 1].map_values(|x: Seq<char>| (dirs[n - 1], x))
    }
}

/// No two moved files share a name, and none takes a name the subject
/// directory holds.
pub open spec fn consolidation_collision_free(top: Seq<Entry>, batches: Seq<Seq<Seq<char>>>) -> bool {
    let moved = moved_names(batches, batches.len() as int);
    &&& moved.no_duplicates()
    &&& forall|i: int| 0 <= i < moved.len() ==> !entry_names(top).contains(#[trigger] moved[i])
}

/// The files of the subject directory once it is consolidated: its own files,
/// then those of each batch.
pub open spec fn flattened(top: Seq<Entry>, batches: Seq<Seq<Seq<char>>>) -> Seq<Seq<char>> {
    file_names(top) + moved_names(batches, batches.len() as int)
}

pub open spec fn listing_views(batches: Seq<Vec<String>>) -> Seq<Seq<Seq<char>>> {
    batches.map_values(|b: Vec<String>| views(b@))
}

pub open spec fn relocation_views(v: Seq<Relocation>) -> Seq<(Seq<char>, Seq<char>)> {
    v.map_values(|m: Relocation| m@)
}

/// Plans the consolidation of a subject directory whose listing is `top`;
/// `batches[b]` lists the names inside its `b`-th directory.
pub fn plan_consolidation(top: &Vec<Entry>, batches: &Vec<Vec<String>>) -> (r: Result<ConsolidationPlan, ConsolidationError>)
    requires
        batches@.len() == dir_names(top@).len(),
    ensures
        ({
            let bv = listing_views(batches@);
            match r {
                Ok(plan) => {
                    &&& consolidation_collision_free(top@, bv)
                    &&& relocation_views(plan.moves@) == batch_moves(dir_names(top@), bv, bv.len() as int)
                    &&& views(plan.removed@) == dir_names(top@)
                },
                Err(ConsolidationError::NameCollision(_)) => !consolidation_collision_free(top@, bv),
                Err(ConsolidationError::NotADirectory) => false,
            }
        }),
{
    let ghost bv = listing_views(batches@);
    let ghost dv = dir_names(top@);
    let mut dirs: Vec<String> = Vec::new();
    let mut all: Vec<String> = Vec::new();
    let mut i: usize = 0;
    while i < top.len()
        invariant
            i <= top.len(),
            views(dirs@) == dir_names(top@.subrange(0, i as int)),
            views(all@) == entry_names(top@.subrange(0, i as int)),
        decreases top.len() - i,
    {
        let e = &top[i];
        let ghost pre = top@.subrange(0, i as int);
        let ghost next = top@.subrange(0, i + 1);
        assert(next.drop_last() =~= pre);
        let nm = e.name.clone();
        proof {
            assert(views(all@.push(nm)) =~= views(all@).push(nm@));
            assert(views(dirs@.push(nm)) =~= views(dirs@).push(nm@));
            assert(entry_names(next) =~= entry_names(pre).push(nm@));
        }
        if e.is_dir {
            dirs.push(e.name.clone());
        }
        all.push(nm);
        i = i + 1;
    }
    assert(top@.subrange(0, i as int) =~= top@);
    let mut moves: Vec<Relocation> = Vec::new();
    let mut moved: Vec<String> = Vec::new();
    let mut b: usize = 0;
    while b < batches.len()
        invariant
            b <= batches.len(),
            batches@.len() == dv.len(),
            views(dirs@) == dv,
            bv == listing_views(batches@),
            views(moved@) == moved_names(bv, b as int),
            relocation_views(moves@) == batch_moves(dv, bv, b as int),
        decreases batches.len() - b,
    {
        let listing = &batches[b];
        assert(bv[b as int] == views(listing@));
        let mut j: usize = 0;
        while j < listing.len()
            invariant
                b < batches.len(),
                batches@.len() == dv.len(),
                views(dirs@) == dv,
                bv == listing_views(batches@),
                bv[b as int] == views(listing@),
                j <= listing.len(),
                views(moved@) == moved_names(bv, b as int) + views(listing@).subrange(0, j as int),
                relocation_views(moves@) == batch_moves(dv, bv, b as int) + views(listing@).subrange(
                    0,
                    j as int,
                ).map_values(|x: Seq<char>| (dv[b as int], x)),
            decreases listing.len() - j,
        {
            let m = Relocation { batch: dirs[b].clone(), name: listing[j].clone() };
            proof {
                assert(relocation_views(moves@.push(m)) =~= relocation_views(moves@).push(m@));
                assert(views(moved@.push(listing[j as int])) =~= views(moved@).push(listing@[j as int]@));
                assert(views(listing@).subrange(0, j + 1) =~= views(listing@).subrange(0, j as int).push(
                    listing@[j as int]@,
                ));
                assert(views(listing@).subrange(0, j + 1).map_values(|x: Seq<char>| (dv[b as int], x))
                    =~= views(listing@).subrange(0, j as int).map_values(|x: Seq<char>| (dv[b as int], x)).push(
                    (dv[b as int], listing@[j as int]@),
                ));
            }
            moves.push(m);
            moved.push(listing[j].clone());
            j = j + 1;
        }
        assert(views(listing@).subrange(0, j as int) =~= views(listing@));
        b = b + 1;
    }
    let ghost mv = moved_names(bv, bv.len() as int);
    match repeated_name(&moved) {
        Some(name) => {
            return Err(ConsolidationError::NameCollision(name));
        },
        None => {},
    }
    let mut k: usize = 0;
    while k < moved.len()
        invariant
            views(moved@) == mv,
            mv == moved_names(bv, bv.len() as int),
            bv == listing_views(batches@),
            views(all@) == entry_names(top@),
            k <= moved.len(),
            forall|q: int| 0 <= q < k ==> !entry_names(top@).contains(#[trigger] mv[q]),
        decreases moved.len() - k,
    {
        assert(mv[k as int] == moved@[k as int]@);
        if contains_name(&all, &moved[k]) {
            assert(!consolidation_collision_free(top@, bv));
            return Err(ConsolidationError::NameCollision(moved[k].clone()));
        }
        k = k + 1;
    }
    Ok(ConsolidationPlan { moves, removed: dirs })
}

/// How many names the first `n` batches hold together.
pub open spec fn batch_total(batches: Seq<Seq<Seq<char>>>, n: int) -> nat
    decreases n,
{
    if n <= 0 {
        0
    } else {
        batch_total(batches, n - 1) + batches[n - 1].len()
    }
}

proof fn lemma_moved_names_len(batches: Seq<Seq<Seq<char>>>, n: int)
    requires
        0 <= n <= batches.len(),
    ensures
        moved_names(batches, n).len() == batch_total(batches, n),
        forall|b: int, j: int|
            0 <= b < n && 0 <= j < batches[b].len() ==> moved_names(batches, n).contains(#[trigger] batches[b][j]),
    decreases n,
{
    if n > 0 {
        lemma_moved_names_len(batches, n - 1);
        let pre = moved_names(batches, n - 1);
        let cur = moved_names(batches, n);
        assert forall|b: int, j: int| 0 <= b < n && 0 <= j < batches[b].len() implies cur.contains(
            #[trigger] batches[b][j],
        ) by {
            if b < n - 1 {
                let k = choose|k: int| 0 <= k < pre.len() && pre[k] == batches[b][j];
                assert(cur[k] == batches[b][j]);
            } else {
                assert(cur[pre.len() + j] == batches[b][j]);
            }
        }
    }
}

/// Consolidation loses no file: when it can proceed, the consolidated
/// directory holds every file of the subject directory and every name of each
/// batch, under distinct names, as many as there were.
pub proof fn lemma_consolidation_keeps_every_file(top: Seq<Entry>, batches: Seq<Seq<Seq<char>>>)
    requires
        entry_names(top).no_duplicates(),
        consolidation_collision_free(top, batches),
    ensures
        flattened(top, batches).no_duplicates(),
        flattened(top, batches).len() == file_names(top).len() + batch_total(batches, batches.len() as int),
        forall|i: int| 0 <= i < file_names(top).len() ==> flattened(top, batches).contains(#[trigger] file_names(top)[i]),
        forall|b: int, j: int|
            0 <= b < batches.len() && 0 <= j < batches[b].len() ==> flattened(top, batches).contains(
                #[trigger] batches[b][j],
            ),
{
    let files = file_names(top);
    let moved = moved_names(batches, batches.len() as int);
    let f = flattened(top, batches);
    lemma_moved_names_len(batches, batches.len() as int);
    lemma_files_distinct(top);
    lemma_files_are_entries(top);
    assert forall|i: int, j: int| 0 <= i < f.len() && 0 <= j < f.len() && i != j implies f[i] != f[j] by {
        if i < files.len() && j >= files.len() {
            assert(f[j] == moved[j - files.len()]);
            assert(entry_names(top).contains(files[i]));
        } else if j < files.len() && i >= files.len() {
            assert(f[i] == moved[i - files.len()]);
            assert(entry_names(top).contains(files[j]));
        } else if i >= files.len() && j >= files.len() {
            assert(f[i] == moved[i - files.len()]);
            assert(f[j] == moved[j - files.len()]);
        }
    }
    assert forall|i: int| 0 <= i < files.len() implies f.contains(#[trigger] files[i]) by {
        assert(f[i] == files[i]);
    }
    assert forall|b: int, j: int| 0 <= b < batches.len() && 0 <= j < batches[b].len() implies f.contains(
        #[trigger] batches[b][j],
    ) by {
        let k = choose|k: int| 0 <= k < moved.len() && moved[k] == batches[b][j];
        assert(f[files.len() + k] == batches[b][j]);
    }
}

/// A directory that holds no batch is left as it is: its consolidation moves
/// nothing and removes nothing, so consolidating a second time changes nothing.
pub proof fn lemma_flat_directory_unchanged(top: Seq<Entry>)
    requires
        dir_names(top).len() == 0,
    ensures
        consolidation_collision_free(top, seq![]),
        batch_moves(dir_names(top), seq![], 0) == Seq::<(Seq<char>, Seq<char>)>::empty(),
        flattened(top, seq![]) == file_names(top),
{
    assert(flattened(top, seq![]) =~= file_names(top));
}

/// A full pass loses no file: when the subject directory is consolidated and
/// the directory then read holds exactly the consolidated files and no
/// subdirectory, anonymizing it with a permutation of identifiers succeeds
/// (every file having an extension) and leaves as many files as there were
/// before, under distinct names.
pub proof fn lemma_full_pass_keeps_count(
    top: Seq<Entry>,
    batches: Seq<Seq<Seq<char>>>,
    after: Seq<Entry>,
    numbers: Seq<u64>,
)
    requires
        entry_names(top).no_duplicates(),
        consolidation_collision_free(top, batches),
        entry_names(after).no_duplicates(),
        file_names(after) == flattened(top, batches),
        numbers.len() == file_names(after).len(),
        dir_names(after).len() == 0,
        is_identifier_permutation(numbers),
        all_have_extension(file_names(after)),
    ensures
        collision_free(after, file_names(after), targets(file_names(after), numbers)),
        ({
            let files = file_names(after);
            let last = apply_moves(files, rename_plan(entry_names(after), files, targets(files, numbers)));
            &&& last.len() == file_names(top).len() + batch_total(batches, batches.len() as int)
            &&& last.no_duplicates()
        }),
{
    lemma_consolidation_keeps_every_file(top, batches);
    lemma_permutation_collision_free(after, numbers);
    lemma_rename_plan_safe(after, numbers);
    let files = file_names(after);
    let plan = rename_plan(entry_names(after), files, targets(files, numbers));
    assert(plan.take(plan.len() as int) =~= plan);
}

} // verus!
