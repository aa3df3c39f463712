//! The effect of a rename plan on where each file stands, and the proof that
//! carrying it out move by move never overwrites a file.
use vstd::prelude::*;
use crate::naming::{
    all_have_extension, anonymized, collision_free, current_name, dir_names, entry_names,
    extension, file_names, final_moves, lemma_staging_name, lemma_staging_name_injective, rename_plan,
    staged, staging_moves, staging_name, targets, Entry,
};
use crate::text::decimal;
use crate::naming::{
    first_free, is_identifier_permutation, lemma_anonymized_extension, lemma_permutation_collision_free,
    lemma_tildes_keep_extension,
};

verus! {

/// The names of the files after `m` takes the file named `m.0` to `m.1`.
pub open spec fn apply_move(locs: Seq<Seq<char>>, m: (Seq<char>, Seq<char>)) -> Seq<Seq<char>> {
    locs.map_values(|l: Seq<char>| if l == m.0 { m.1 } else { l })
}

/// The names of the files after the moves are carried out in order.
pub open spec fn apply_moves(locs: Seq<Seq<char>>, moves: Seq<(Seq<char>, Seq<char>)>) -> Seq<Seq<char>>
    decreases moves.len(),
{
    if moves.len() == 0 {
        locs
    } else {
        apply_move(apply_moves(locs, moves.drop_last()), moves.last())
    }
}

/// A move takes an existing file to a name that neither a file nor a directory holds.
pub open spec fn safe_move(locs: Seq<Seq<char>>, dirs: Seq<Seq<char>>, m: (Seq<char>, Seq<char>)) -> bool {
    &&& locs.contains(m.0)
    &&& !locs.contains(m.1)
    &&& !dirs.contains(m.1)
}

/// Each move, made after the ones before it, is safe.
pub open spec fn runs_safely(locs: Seq<Seq<char>>, dirs: Seq<Seq<char>>, moves: Seq<(Seq<char>, Seq<char>)>) -> bool
    decreases moves.len(),
{
    moves.len() == 0 || (runs_safely(locs, dirs, moves.drop_last()) && safe_move(
        apply_moves(locs, moves.drop_last()),
        dirs,
        moves.last(),
    ))
}

proof fn lemma_apply_moves_concat(locs: Seq<Seq<char>>, dirs: Seq<Seq<char>>, a: Seq<(Seq<char>, Seq<char>)>, b: Seq<(Seq<char>, Seq<char>)>)
    ensures
        apply_moves(locs, a + b) == apply_moves(apply_moves(locs, a), b),
        runs_safely(locs, dirs, a + b) == (runs_safely(locs, dirs, a) && runs_safely(
            apply_moves(locs, a),
            dirs,
            b,
        )),
    decreases b.len(),
{
    if b.len() == 0 {
        assert(a + b =~= a);
    } else {
        lemma_apply_moves_concat(locs, dirs, a, b.drop_last());
        assert((a + b).drop_last() =~= a + b.drop_last());
        assert((a + b).last() == b.last());
    }
}

proof fn lemma_safe_move_effect(locs: Seq<Seq<char>>, k: int, m: (Seq<char>, Seq<char>))
    requires
        locs.no_duplicates(),
        0 <= k < locs.len(),
        locs[k] == m.0,
    ensures
        apply_move(locs, m) == locs.update(k, m.1),
{
    assert(apply_move(locs, m) =~= locs.update(k, m.1));
}

proof fn lemma_prefix_runs_safely(locs: Seq<Seq<char>>, dirs: Seq<Seq<char>>, moves: Seq<(Seq<char>, Seq<char>)>, i: int)
    requires
        runs_safely(locs, dirs, moves),
        0 <= i <= moves.len(),
    ensures
        runs_safely(locs, dirs, moves.take(i)),
    decreases moves.len(),
{
    if i == moves.len() {
        assert(moves.take(i) =~= moves);
    } else {
        assert(moves.drop_last().take(i) =~= moves.take(i));
        lemma_prefix_runs_safely(locs, dirs, moves.drop_last(), i);
    }
}

proof fn lemma_safe_run_distinct(locs: Seq<Seq<char>>, dirs: Seq<Seq<char>>, moves: Seq<(Seq<char>, Seq<char>)>)
    requires
        locs.no_duplicates(),
        runs_safely(locs, dirs, moves),
    ensures
        apply_moves(locs, moves).no_duplicates(),
        apply_moves(locs, moves).len() == locs.len(),
    decreases moves.len(),
{
    if moves.len() > 0 {
        let pre = apply_moves(locs, moves.drop_last());
        lemma_safe_run_distinct(locs, dirs, moves.drop_last());
        let m = moves.last();
        let k = choose|k: int| 0 <= k < pre.len() && pre[k] == m.0;
        lemma_safe_move_effect(pre, k, m);
    }
}

/// Where the files stand once the first `n` of them have gone to their waiting names.
pub open spec fn staged_state(taken: Seq<Seq<char>>, files: Seq<Seq<char>>, tv: Seq<Seq<char>>, n: int) -> Seq<Seq<char>> {
    Seq::new(files.len(), |k: int| if k < n && staged(files, tv, k) { staging_name(taken, files[k]) } else { files[k] })
}

/// Where the files stand once the first `n` of them bear their new names.
pub open spec fn renamed_state(taken: Seq<Seq<char>>, files: Seq<Seq<char>>, tv: Seq<Seq<char>>, n: int) -> Seq<Seq<char>> {
    Seq::new(files.len(), |k: int| if k < n { tv[k] } else { current_name(taken, files, tv, k) })
}

proof fn lemma_anonymized_starts_with_digit(n: nat, ext: Seq<char>)
    ensures
        anonymized(n, ext).len() > 0,
        anonymized(n, ext)[0] != '~',
    decreases n,
{
    if n >= 10 {
        lemma_anonymized_starts_with_digit(n / 10, ext);
        assert(decimal(n)[0] == decimal(n / 10)[0]);
    }
}

proof fn lemma_staged_name_plain(es: Seq<Entry>, numbers: Seq<u64>, k: int)
    requires
        numbers.len() == file_names(es).len(),
        0 <= k < file_names(es).len(),
        staged(file_names(es), targets(file_names(es), numbers), k),
    ensures
        file_names(es)[k].len() > 0,
        file_names(es)[k][0] != '~',
{
    let files = file_names(es);
    let tv = targets(files, numbers);
    let j = choose|j: int| 0 <= j < tv.len() && tv[j] == files[k];
    lemma_anonymized_starts_with_digit(numbers[j] as nat, extension(files[j])->0);
}

proof fn lemma_staging(es: Seq<Entry>, numbers: Seq<u64>, n: int)
    requires
        entry_names(es).no_duplicates(),
        numbers.len() == file_names(es).len(),
        all_have_extension(file_names(es)),
        collision_free(es, file_names(es), targets(file_names(es), numbers)),
        0 <= n <= file_names(es).len(),
    ensures
        ({
            let files = file_names(es);
            let taken = entry_names(es);
            let tv = targets(files, numbers);
            &&& runs_safely(files, dir_names(es), staging_moves(taken, files, tv, n))
            &&& apply_moves(files, staging_moves(taken, files, tv, n)) == staged_state(taken, files, tv, n)
        }),
    decreases n,
{
    let files = file_names(es);
    let taken = entry_names(es);
    let tv = targets(files, numbers);
    if n == 0 {
        assert(staged_state(taken, files, tv, 0) =~= files);
    } else {
        lemma_staging(es, numbers, n - 1);
        let pre = staged_state(taken, files, tv, n - 1);
        if staged(files, tv, n - 1) {
            let m = (files[n - 1], staging_name(taken, files[n - 1]));
            lemma_files_distinct(es);
            lemma_files_are_entries(es);
            assert(pre[n - 1] == m.0);
            assert(!pre.contains(m.1)) by {
                if pre.contains(m.1) {
                    let k = choose|k: int| 0 <= k < pre.len() && pre[k] == m.1;
                    if k < n - 1 && staged(files, tv, k) {
                        lemma_staged_name_plain(es, numbers, k);
                        lemma_staged_name_plain(es, numbers, n - 1);
                        lemma_staging_name_injective(taken, files[k], files[n - 1]);
                    } else {
                        assert(entry_names(es).contains(files[k]));
                        lemma_staging_name(taken, files[n - 1]);
                    }
                }
            }
            assert(!dir_names(es).contains(m.1)) by {
                lemma_dirs_are_entries(es);
                lemma_staging_name(taken, files[n - 1]);
            }
            assert(staging_moves(taken, files, tv, n).drop_last() =~= staging_moves(taken, files, tv, n - 1));
            lemma_no_dup_staged_state(es, numbers, n - 1);
            lemma_safe_move_effect(pre, n - 1, m);
            assert(pre.update(n - 1, m.1) =~= staged_state(taken, files, tv, n));
        } else {
            assert(pre =~= staged_state(taken, files, tv, n));
        }
    }
}

proof fn lemma_no_dup_staged_state(es: Seq<Entry>, numbers: Seq<u64>, n: int)
    requires
        entry_names(es).no_duplicates(),
        numbers.len() == file_names(es).len(),
        collision_free(es, file_names(es), targets(file_names(es), numbers)),
        0 <= n <= file_names(es).len(),
    ensures
        staged_state(entry_names(es), file_names(es), targets(file_names(es), numbers), n).no_duplicates(),
{
    let files = file_names(es);
    let taken = entry_names(es);
    let tv = targets(files, numbers);
    let st = staged_state(taken, files, tv, n);
    lemma_files_distinct(es);
    lemma_files_are_entries(es);
    assert forall|i: int, j: int| 0 <= i < st.len() && 0 <= j < st.len() && i != j implies st[i] != st[j] by {
        let si = i < n && staged(files, tv, i);
        let sj = j < n && staged(files, tv, j);
        if si && sj {
            if st[i] == st[j] {
                lemma_staged_name_plain(es, numbers, i);
                lemma_staged_name_plain(es, numbers, j);
                lemma_staging_name_injective(taken, files[i], files[j]);
            }
        } else if !si && !sj {
            assert(files[i] != files[j]);
        } else if si && !sj {
            if st[i] == st[j] {
                assert(entry_names(es).contains(files[j]));
                lemma_staging_name(taken, files[i]);
            }
        } else if !si && sj {
            if st[i] == st[j] {
                assert(entry_names(es).contains(files[i]));
                lemma_staging_name(taken, files[j]);
            }
        }
    }
}

pub(crate) proof fn lemma_files_distinct(es: Seq<Entry>)
    requires
        entry_names(es).no_duplicates(),
    ensures
        file_names(es).no_duplicates(),
    decreases es.len(),
{
    if es.len() > 0 {
        assert(entry_names(es.drop_last()) =~= entry_names(es).drop_last());
        lemma_files_distinct(es.drop_last());
        lemma_files_are_entries(es.drop_last());
        if !es.last().is_dir {
            let f = file_names(es);
            let r = file_names(es.drop_last());
            assert forall|i: int| 0 <= i < r.len() implies r[i] != es.last().name@ by {
                assert(entry_names(es.drop_last()).contains(r[i]));
                let k = choose|k: int| 0 <= k < entry_names(es.drop_last()).len() && entry_names(es.drop_last())[k] == r[i];
                assert(entry_names(es)[k] == r[i]);
                assert(entry_names(es)[es.len() - 1] == es.last().name@);
            }
        }
    }
}

pub(crate) proof fn lemma_files_are_entries(es: Seq<Entry>)
    ensures
        forall|i: int| 0 <= i < file_names(es).len() ==> entry_names(es).contains(#[trigger] file_names(es)[i]),
    decreases es.len(),
{
    if es.len() > 0 {
        lemma_files_are_entries(es.drop_last());
        let r = file_names(es.drop_last());
        assert forall|i: int| 0 <= i < file_names(es).len() implies entry_names(es).contains(#[trigger] file_names(es)[i]) by {
            if i < r.len() {
                assert(entry_names(es.drop_last()).contains(r[i]));
                let k = choose|k: int| 0 <= k < entry_names(es.drop_last()).len() && entry_names(es.drop_last())[k] == r[i];
                assert(entry_names(es)[k] == r[i]);
            } else {
                assert(entry_names(es)[es.len() - 1] == es.last().name@);
            }
        }
    }
}

proof fn lemma_dirs_are_entries(es: Seq<Entry>)
    ensures
        forall|x: Seq<char>| dir_names(es).contains(x) ==> entry_names(es).contains(x),
    decreases es.len(),
{
    if es.len() > 0 {
        lemma_dirs_are_entries(es.drop_last());
        let r = dir_names(es.drop_last());
        assert forall|x: Seq<char>| dir_names(es).contains(x) implies entry_names(es).contains(x) by {
            if r.contains(x) {
                let k = choose|k: int| 0 <= k < entry_names(es.drop_last()).len() && entry_names(es.drop_last())[k] == x;
                assert(entry_names(es)[k] == x);
            } else {
                assert(entry_names(es)[es.len() - 1] == es.last().name@);
            }
        }
    }
}

proof fn lemma_renaming(es: Seq<Entry>, numbers: Seq<u64>, n: int)
    requires
        entry_names(es).no_duplicates(),
        numbers.len() == file_names(es).len(),
        all_have_extension(file_names(es)),
        collision_free(es, file_names(es), targets(file_names(es), numbers)),
        0 <= n <= file_names(es).len(),
    ensures
        ({
            let files = file_names(es);
            let taken = entry_names(es);
            let tv = targets(files, numbers);
            let start = staged_state(taken, files, tv, files.len() as int);
            &&& runs_safely(start, dir_names(es), final_moves(taken, files, tv, n))
            &&& apply_moves(start, final_moves(taken, files, tv, n)) == renamed_state(taken, files, tv, n)
        }),
    decreases n,
{
    let files = file_names(es);
    let taken = entry_names(es);
    let tv = targets(files, numbers);
    let start = staged_state(taken, files, tv, files.len() as int);
    if n == 0 {
        assert(renamed_state(taken, files, tv, 0) =~= start);
    } else {
        lemma_renaming(es, numbers, n - 1);
        let pre = renamed_state(taken, files, tv, n - 1);
        if files[n - 1] == tv[n - 1] {
            assert(pre =~= renamed_state(taken, files, tv, n));
        } else {
            let m = (current_name(taken, files, tv, n - 1), tv[n - 1]);
            lemma_anonymized_starts_with_digit(numbers[n - 1] as nat, extension(files[n - 1])->0);
            assert(tv[n - 1][0] != '~');
            assert(!pre.contains(m.1)) by {
                if pre.contains(m.1) {
                    let k = choose|k: int| 0 <= k < pre.len() && pre[k] == m.1;
                    if k >= n - 1 && staged(files, tv, k) {
                        lemma_staging_name(taken, files[k]);
                    } else if k > n - 1 {
                        assert(tv.contains(files[k]));
                        assert(tv[k] == tv[n - 1]);
                    } else if k < n - 1 {
                        assert(tv[k] == tv[n - 1]);
                    }
                }
            }
            assert(final_moves(taken, files, tv, n).drop_last() =~= final_moves(taken, files, tv, n - 1));
            assert(pre[n - 1] == m.0);
            assert(!dir_names(es).contains(tv[n - 1]));
            assert(safe_move(pre, dir_names(es), m));
            lemma_no_dup_staged_state(es, numbers, files.len() as int);
            lemma_safe_run_distinct(start, dir_names(es), final_moves(taken, files, tv, n - 1));
            lemma_safe_move_effect(pre, n - 1, m);
            assert(pre.update(n - 1, m.1) =~= renamed_state(taken, files, tv, n));
        }
    }
}

/// Carrying out a rename plan never overwrites anything: each move takes an
/// existing file to a name that no file and no directory holds. So after any
/// number of moves, a run cut short included, every file is present exactly
/// once under a name of its own, and once all moves are made each file bears
/// its new name.
pub proof fn lemma_rename_plan_safe(es: Seq<Entry>, numbers: Seq<u64>)
    requires
        entry_names(es).no_duplicates(),
        numbers.len() == file_names(es).len(),
        all_have_extension(file_names(es)),
        collision_free(es, file_names(es), targets(file_names(es), numbers)),
    ensures
        ({
            let files = file_names(es);
            let taken = entry_names(es);
            let tv = targets(files, numbers);
            let plan = rename_plan(taken, files, tv);
            &&& runs_safely(files, dir_names(es), plan)
            &&& forall|i: int|
                0 <= i <= plan.len() ==> (#[trigger] apply_moves(files, plan.take(i))).no_duplicates()
                    && apply_moves(files, plan.take(i)).len() == files.len()
            &&& apply_moves(files, plan) == tv
        }),
{
    let files = file_names(es);
    let taken = entry_names(es);
    let tv = targets(files, numbers);
    let len = files.len() as int;
    let plan = rename_plan(taken, files, tv);
    lemma_staging(es, numbers, len);
    lemma_renaming(es, numbers, len);
    lemma_apply_moves_concat(files, dir_names(es), staging_moves(taken, files, tv, len), final_moves(taken, files, tv, len));
    lemma_files_distinct(es);
    assert(renamed_state(taken, files, tv, len) =~= tv);
    assert forall|i: int| 0 <= i <= plan.len() implies (#[trigger] apply_moves(files, plan.take(i))).no_duplicates()
        && apply_moves(files, plan.take(i)).len() == files.len() by {
        lemma_prefix_runs_safely(files, dir_names(es), plan, i);
        lemma_safe_run_distinct(files, dir_names(es), plan.take(i));
    }
}

/// Every move lands on a name that has an extension.
pub open spec fn lands_on_extensions(moves: Seq<(Seq<char>, Seq<char>)>) -> bool {
    forall|i: int| 0 <= i < moves.len() ==> extension(#[trigger] moves[i].1).is_some()
}

proof fn lemma_staging_lands_on_extensions(taken: Seq<Seq<char>>, files: Seq<Seq<char>>, tv: Seq<Seq<char>>, n: int)
    requires
        all_have_extension(files),
        0 <= n <= files.len(),
    ensures
        lands_on_extensions(staging_moves(taken, files, tv, n)),
    decreases n,
{
    if n > 0 {
        lemma_staging_lands_on_extensions(taken, files, tv, n - 1);
        if staged(files, tv, n - 1) {
            lemma_staging_name(taken, files[n - 1]);
            assert(extension(files[n - 1]).is_some());
            lemma_tildes_keep_extension(first_free(taken, files[n - 1], 1), files[n - 1]);
            let sm = staging_moves(taken, files, tv, n);
            assert forall|i: int| 0 <= i < sm.len() implies extension(#[trigger] sm[i].1).is_some() by {
                if i < sm.len() - 1 {
                    assert(sm[i] == staging_moves(taken, files, tv, n - 1)[i]);
                }
            }
        }
    }
}

proof fn lemma_renames_land_on_extensions(taken: Seq<Seq<char>>, files: Seq<Seq<char>>, numbers: Seq<u64>, n: int)
    requires
        all_have_extension(files),
        numbers.len() == files.len(),
        0 <= n <= files.len(),
    ensures
        lands_on_extensions(final_moves(taken, files, targets(files, numbers), n)),
    decreases n,
{
    let tv = targets(files, numbers);
    if n > 0 {
        lemma_renames_land_on_extensions(taken, files, numbers, n - 1);
        if files[n - 1] != tv[n - 1] {
            assert(extension(files[n - 1]).is_some());
            lemma_anonymized_extension(numbers[n - 1] as nat, files[n - 1]);
            let fm = final_moves(taken, files, tv, n);
            assert forall|i: int| 0 <= i < fm.len() implies extension(#[trigger] fm[i].1).is_some() by {
                if i < fm.len() - 1 {
                    assert(fm[i] == final_moves(taken, files, tv, n - 1)[i]);
                }
            }
        }
    }
}

proof fn lemma_moves_keep_extensions(locs: Seq<Seq<char>>, moves: Seq<(Seq<char>, Seq<char>)>)
    requires
        all_have_extension(locs),
        lands_on_extensions(moves),
    ensures
        all_have_extension(apply_moves(locs, moves)),
    decreases moves.len(),
{
    if moves.len() > 0 {
        assert(lands_on_extensions(moves.drop_last())) by {
            assert forall|i: int| 0 <= i < moves.drop_last().len() implies extension(
                #[trigger] moves.drop_last()[i].1,
            ).is_some() by {
                assert(moves.drop_last()[i] == moves[i]);
            }
        }
        lemma_moves_keep_extensions(locs, moves.drop_last());
        let pre = apply_moves(locs, moves.drop_last());
        let post = apply_moves(locs, moves);
        assert(extension(moves[moves.len() - 1].1).is_some());
        assert forall|k: int| 0 <= k < post.len() implies extension(#[trigger] post[k]).is_some() by {
            assert(extension(pre[k]).is_some());
        }
    }
}

/// A run cut short can be resumed. After any number of moves of a rename plan
/// the directory holds every file once, under distinct names that all have an
/// extension; so when it holds no subdirectory, a new plan for it with any
/// permutation of identifiers meets no collision, and succeeds.
pub proof fn lemma_interrupted_run_resumable(
    es: Seq<Entry>,
    numbers: Seq<u64>,
    i: int,
    after: Seq<Entry>,
    renumber: Seq<u64>,
)
    requires
        entry_names(es).no_duplicates(),
        numbers.len() == file_names(es).len(),
        all_have_extension(file_names(es)),
        collision_free(es, file_names(es), targets(file_names(es), numbers)),
        0 <= i <= rename_plan(entry_names(es), file_names(es), targets(file_names(es), numbers)).len(),
        file_names(after) == apply_moves(
            file_names(es),
            rename_plan(entry_names(es), file_names(es), targets(file_names(es), numbers)).take(i),
        ),
        dir_names(after).len() == 0,
        renumber.len() == file_names(after).len(),
        is_identifier_permutation(renumber),
    ensures
        file_names(after).no_duplicates(),
        file_names(after).len() == file_names(es).len(),
        all_have_extension(file_names(after)),
        collision_free(after, file_names(after), targets(file_names(after), renumber)),
{
    let files = file_names(es);
    let taken = entry_names(es);
    let tv = targets(files, numbers);
    let len = files.len() as int;
    let plan = rename_plan(taken, files, tv);
    lemma_rename_plan_safe(es, numbers);
    assert(apply_moves(files, plan.take(i)).no_duplicates());
    lemma_staging_lands_on_extensions(taken, files, tv, len);
    lemma_renames_land_on_extensions(taken, files, numbers, len);
    let sm = staging_moves(taken, files, tv, len);
    let fm = final_moves(taken, files, tv, len);
    assert(lands_on_extensions(plan.take(i))) by {
        assert forall|q: int| 0 <= q < plan.take(i).len() implies extension(#[trigger] plan.take(i)[q].1).is_some() by {
            assert(plan.take(i)[q] == plan[q]);
            if q < sm.len() {
                assert(plan[q] == sm[q]);
            } else {
                assert(plan[q] == fm[q - sm.len()]);
            }
        }
    }
    lemma_moves_keep_extensions(files, plan.take(i));
    lemma_permutation_collision_free(after, renumber);
}

} // verus!
