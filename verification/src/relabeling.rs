//! The relabeling tool's decisions: boxes labeled with value classes get
//! value-and-suit classes, one box at a time or repeated from the previous
//! images.
use crate::check::{first_unmatched, is_matrix, rows, unmatched, Overlap};
use crate::dataset::{resolves_to, DatasetMovement, DynLabel, DynLabelConfig};
use vstd::prelude::*;

verus! {

/// The suit that the pressed keys choose: H (hearts) 0, D (diamonds) 1,
/// C (clubs) 2, S (spades) 3, in that order of precedence.
pub fn suit_for_keys(h: bool, d: bool, c: bool, s: bool) -> (r: Option<usize>)
    ensures
        r == if h {
            Some(0usize)
        } else if d {
            Some(1usize)
        } else if c {
            Some(2usize)
        } else if s {
            Some(3usize)
        } else {
            None::<usize>
        },
{
    if h {
        Some(0)
    } else if d {
        Some(1)
    } else if c {
        Some(2)
    } else if s {
        Some(3)
    } else {
        None
    }
}

/// The value-and-suit class of a box whose value class is `old_class`,
/// given the suit.
pub open spec fn remapped_index(suit: usize, old_class: usize) -> int {
    suit * 13 + old_class % 13
}

/// The label, in the new configuration, of a box of value class
/// `old_class` that gets suit `suit`.
pub fn remapped_class(new_config: &DynLabelConfig, suit: usize, old_class: usize) -> (l: DynLabel)
    requires
        remapped_index(suit, old_class) < new_config@.len(),
    ensures
        resolves_to(
            new_config@[remapped_index(suit, old_class)],
            remapped_index(suit, old_class),
            l,
        ),
{
    let n = new_config.num_labels();
    assert(suit * 13 + old_class % 13 < n);
    let i = suit * 13 + old_class % 13;
    match new_config.label_from_usize(i) {
        Some(l) => l,
        None => DynLabel { i: 0, name: String::new(), color: new_config.color_for(0), keys: Vec::new() },
    }
}

/// The box to remap next: the first old box (in the order of the old label)
/// that overlaps no new box. `old_to_new[i][j]` says how old box `i`
/// overlaps new box `j` against the threshold.
pub fn find_next_highlighted(old_to_new: &Vec<Vec<Overlap>>, new_len: usize) -> (r: Option<usize>)
    requires
        is_matrix(rows(old_to_new@), old_to_new@.len() as int, new_len as int),
    ensures
        r is None <==> unmatched(rows(old_to_new@), old_to_new@.len(), new_len as nat).len() == 0,
        r matches Some(i) ==> i == unmatched(rows(old_to_new@), old_to_new@.len(), new_len as nat)[0],
{
    first_unmatched(old_to_new, new_len)
}

/// For each old box `i < n`, in order, the first candidate `j` that overlaps
/// it above the threshold and has its value class: `(i, j)`.
pub open spec fn similar_pairs(
    old_classes: Seq<usize>,
    cand_classes: Seq<usize>,
    m: Seq<Seq<Overlap>>,
    n: nat,
) -> Seq<(usize, usize)>
    decreases n,
{
    if n == 0 {
        seq![]
    } else {
        let i = n - 1;
        similar_pairs(old_classes, cand_classes, m, (n - 1) as nat) + match first_similar(
            old_classes[i],
            cand_classes,
            m[i],
            cand_classes.len(),
        ) {
            Some(j) => seq![(i as usize, j as usize)],
            None => seq![],
        }
    }
}

/// The first candidate `j < n` that overlaps above the threshold and whose
/// class has the value class `old_class`.
pub open spec fn first_similar(old_class: usize, cand_classes: Seq<usize>, row: Seq<Overlap>, n: nat) -> Option<int>
    decreases n,
{
    if n == 0 {
        None
    } else {
        match first_similar(old_class, cand_classes, row, (n - 1) as nat) {
            Some(j) => Some(j),
            None => if row[n - 1] == Overlap::Above && old_class == cand_classes[n - 1] % 13 {
                Some(n - 1)
            } else {
                None
            },
        }
    }
}

/// Which candidate boxes (from the new labels of the current and previous
/// images) each old box takes its new class from (see `similar_pairs`).
pub fn take_similar_bbs(
    old_classes: &Vec<usize>,
    cand_classes: &Vec<usize>,
    old_to_cand: &Vec<Vec<Overlap>>,
) -> (r: Vec<(usize, usize)>)
    requires
        is_matrix(rows(old_to_cand@), old_classes@.len() as int, cand_classes@.len() as int),
    ensures
        r@ == similar_pairs(old_classes@, cand_classes@, rows(old_to_cand@), old_classes@.len()),
{
    let ghost m = rows(old_to_cand@);
    let mut r: Vec<(usize, usize)> = Vec::new();
    let mut i: usize = 0;
    while i < old_classes.len()
        invariant
            i <= old_classes@.len(),
            m == rows(old_to_cand@),
            is_matrix(m, old_classes@.len() as int, cand_classes@.len() as int),
            r@ == similar_pairs(old_classes@, cand_classes@, m, i as nat),
        decreases old_classes@.len() - i,
    {
        let row = &old_to_cand[i];
        assert(row@ == m[i as int]);
        let mut found: Option<usize> = None;
        let mut j: usize = 0;
        while j < cand_classes.len()
            invariant
                j <= cand_classes@.len() == row@.len(),
                i < old_classes@.len(),
                found matches Some(f) ==> f < j,
                found matches Some(f) ==> first_similar(old_classes@[i as int], cand_classes@, row@, j as nat)
                    == Some(f as int),
                found is None ==> first_similar(old_classes@[i as int], cand_classes@, row@, j as nat) is None,
            decreases cand_classes@.len() - j,
        {
            if found.is_none() && row[j] == Overlap::Above && old_classes[i] == cand_classes[j] % 13 {
                found = Some(j);
            }
            j = j + 1;
        }
        proof {
            lemma_first_similar_bound(old_classes@[i as int], cand_classes@, row@, cand_classes@.len());
        }
        match found {
            Some(f) => r.push((i, f)),
            None => {},
        }
        i = i + 1;
    }
    r
}

proof fn lemma_first_similar_bound(old_class: usize, cand_classes: Seq<usize>, row: Seq<Overlap>, n: nat)
    ensures
        first_similar(old_class, cand_classes, row, n) matches Some(j) ==> 0 <= j < n,
    decreases n,
{
    if n > 0 {
        lemma_first_similar_bound(old_class, cand_classes, row, (n - 1) as nat);
    }
}

/// The movement that the arrow keys ask for in the relabeling tool; moving
/// on is refused while the new label has fewer or more boxes than the old.
pub fn relabel_movement(
    next_pressed: bool,
    previous_pressed: bool,
    new_len: usize,
    old_len: usize,
) -> (r: Option<DatasetMovement>)
    ensures
        next_pressed == previous_pressed ==> r is None,
        next_pressed && !previous_pressed ==> (r is None <==> new_len != old_len),
        next_pressed && !previous_pressed && new_len == old_len ==> r matches Some(DatasetMovement::Next),
        !next_pressed && previous_pressed ==> r matches Some(DatasetMovement::Previous),
{
    let movement = DatasetMovement::from_keys(next_pressed, previous_pressed, None);
    match movement {
        Some(DatasetMovement::Next) => {
            if new_len != old_len {
                None
            } else {
                Some(DatasetMovement::Next)
            }
        },
        other => other,
    }
}

/// Whether the relabeling tool moves on by itself: every old box has its
/// new box, none is left to remap, and auto-repeat is on.
pub fn should_auto_advance(new_len: usize, old_len: usize, highlighted: Option<usize>, auto_repeat: bool) -> (r: bool)
    ensures
        r == (new_len == old_len && highlighted is None && auto_repeat),
{
    new_len == old_len && highlighted.is_none() && auto_repeat
}

/// A remapped class keeps the value of the old class and takes the chosen
/// suit.
pub proof fn law_remap_keeps_value(suit: usize, old_class: usize)
    ensures
        remapped_index(suit, old_class) % 13 == old_class % 13,
        remapped_index(suit, old_class) / 13 == suit,
{
}


/// Candidate `j` can give old box `i` its new class: they overlap above the
/// threshold and the candidate's class has the old box's value.
pub open spec fn can_take(old_classes: Seq<usize>, cand_classes: Seq<usize>, m: Seq<Seq<Overlap>>, i: int, j: int) -> bool {
    &&& 0 <= j < cand_classes.len()
    &&& m[i][j] == Overlap::Above
    &&& old_classes[i] == cand_classes[j] % 13
}

/// Some candidate can give old box `i` its new class.
pub open spec fn has_candidate(old_classes: Seq<usize>, cand_classes: Seq<usize>, m: Seq<Seq<Overlap>>, i: int) -> bool {
    exists|j: int| #[trigger] can_take(old_classes, cand_classes, m, i, j)
}

/// Old box `i` is paired in `pairs`.
pub open spec fn is_paired(pairs: Seq<(usize, usize)>, i: int) -> bool {
    exists|k: int| 0 <= k < pairs.len() && (#[trigger] pairs[k]).0 == i
}

proof fn lemma_first_similar_is_first(
    old_classes: Seq<usize>,
    cand_classes: Seq<usize>,
    m: Seq<Seq<Overlap>>,
    i: int,
    n: nat,
)
    requires
        n <= cand_classes.len(),
    ensures
        first_similar(old_classes[i], cand_classes, m[i], n) matches Some(j) ==> {
            &&& 0 <= j < n
            &&& can_take(old_classes, cand_classes, m, i, j)
            &&& forall|k: int| 0 <= k < j ==> !can_take(old_classes, cand_classes, m, i, k)
        },
        first_similar(old_classes[i], cand_classes, m[i], n) is None ==> forall|k: int|
            0 <= k < n ==> !can_take(old_classes, cand_classes, m, i, k),
    decreases n,
{
    if n > 0 {
        lemma_first_similar_is_first(old_classes, cand_classes, m, i, (n - 1) as nat);
    }
}

/// Every old box that some candidate can give its class to is paired with
/// the first such candidate (the one from the nearest image), and no other
/// box is paired; the pairs come in the order of the old boxes.
pub proof fn law_similar_pairs_take_the_first_candidate(
    old_classes: Seq<usize>,
    cand_classes: Seq<usize>,
    m: Seq<Seq<Overlap>>,
    n: nat,
)
    requires
        n <= old_classes.len(),
        old_classes.len() <= usize::MAX,
        cand_classes.len() <= usize::MAX,
    ensures
        ({
            let r = similar_pairs(old_classes, cand_classes, m, n);
            &&& forall|k: int|
                0 <= k < r.len() ==> {
                    let i = (#[trigger] r[k]).0 as int;
                    let j = r[k].1 as int;
                    &&& 0 <= i < n
                    &&& can_take(old_classes, cand_classes, m, i, j)
                    &&& forall|j2: int| 0 <= j2 < j ==> !can_take(old_classes, cand_classes, m, i, j2)
                }
            &&& forall|k1: int, k2: int| 0 <= k1 < k2 < r.len() ==> (#[trigger] r[k1]).0 < (#[trigger] r[k2]).0
            &&& forall|i: int|
                0 <= i < n ==> (#[trigger] has_candidate(old_classes, cand_classes, m, i) <==> is_paired(r, i))
        }),
    decreases n,
{
    if n > 0 {
        let i = n - 1;
        law_similar_pairs_take_the_first_candidate(old_classes, cand_classes, m, (n - 1) as nat);
        lemma_first_similar_is_first(old_classes, cand_classes, m, i, cand_classes.len());
        let prev = similar_pairs(old_classes, cand_classes, m, (n - 1) as nat);
        let r = similar_pairs(old_classes, cand_classes, m, n);
        let f = first_similar(old_classes[i], cand_classes, m[i], cand_classes.len());
        match f {
            Some(j) => {
                assert(r =~= prev + seq![(i as usize, j as usize)]);
                assert(r[prev.len() as int] == (i as usize, j as usize));
                assert forall|i2: int|
                    0 <= i2 < n implies (#[trigger] has_candidate(old_classes, cand_classes, m, i2) <==> is_paired(r, i2)) by {
                    if i2 < i {
                        assert(has_candidate(old_classes, cand_classes, m, i2) <==> is_paired(prev, i2));
                        if exists|k: int| 0 <= k < r.len() && (#[trigger] r[k]).0 == i2 {
                            let k = choose|k: int| 0 <= k < r.len() && (#[trigger] r[k]).0 == i2;
                            assert(k < prev.len());
                            assert(prev[k] == r[k]);
                        }
                        if exists|k: int| 0 <= k < prev.len() && (#[trigger] prev[k]).0 == i2 {
                            let k = choose|k: int| 0 <= k < prev.len() && (#[trigger] prev[k]).0 == i2;
                            assert(r[k] == prev[k]);
                        }
                    } else {
                        assert(can_take(old_classes, cand_classes, m, i, j));
                    }
                }
            },
            None => {
                assert(r =~= prev);
                assert forall|i2: int|
                    0 <= i2 < n implies (#[trigger] has_candidate(old_classes, cand_classes, m, i2) <==> is_paired(r, i2)) by {
                    if i2 < i {
                        assert(has_candidate(old_classes, cand_classes, m, i2) <==> is_paired(prev, i2));
                    } else {
                        if is_paired(r, i2) {
                            let k = choose|k: int| 0 <= k < r.len() && (#[trigger] r[k]).0 == i2;
                            assert(prev[k].0 < n - 1);
                        }
                        if exists|j2: int| #[trigger] can_take(old_classes, cand_classes, m, i2, j2) {
                            let j2 = choose|j2: int| #[trigger] can_take(old_classes, cand_classes, m, i2, j2);
                            assert(!can_take(old_classes, cand_classes, m, i, j2));
                        }
                    }
                }
            },
        }
    }
}

} // verus!
