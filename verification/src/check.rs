//! Comparison of two labelings of the same image.
use crate::dataset::DynLabelConfig;
use vstd::prelude::*;

verus! {

/// How the overlap (intersection over union) of two boxes stands against the
/// comparison threshold: below it, above it, or neither (equal to it, or not
/// a number).
#[derive(Clone, Copy, Debug, PartialEq, Eq, Structural)]
pub enum Overlap {
    Below,
    Above,
    Neither,
}

/// Two labelings of one image, `a` and `b`, given by the class numbers of
/// their boxes, and how each box of one overlaps each box of the other.
pub struct LabelDiff {
    pub a: Vec<usize>,
    pub b: Vec<usize>,
    /// `a_to_b[i][j]`: box `i` of `a` against box `j` of `b`.
    pub a_to_b: Vec<Vec<Overlap>>,
    /// `b_to_a[j][i]`: box `j` of `b` against box `i` of `a`.
    pub b_to_a: Vec<Vec<Overlap>>,
}

/// The rows of a matrix, as sequences.
pub open spec fn rows(m: Seq<Vec<Overlap>>) -> Seq<Seq<Overlap>> {
    m.map_values(|r: Vec<Overlap>| r@)
}

/// `m` has `n_rows` rows of `n_cols` entries each.
pub open spec fn is_matrix(m: Seq<Seq<Overlap>>, n_rows: int, n_cols: int) -> bool {
    m.len() == n_rows && forall|i: int| 0 <= i < n_rows ==> (#[trigger] m[i]).len() == n_cols
}

/// The pairs `(i, j)` with `j < n` whose entry in `row` (row `i`) is above
/// the threshold, in order of `j`.
pub open spec fn hits_in_row(row: Seq<Overlap>, i: int, n: nat) -> Seq<(usize, usize)>
    decreases n,
{
    if n == 0 {
        seq![]
    } else {
        hits_in_row(row, i, (n - 1) as nat) + if row[n - 1] == Overlap::Above {
            seq![(i as usize, (n - 1) as usize)]
        } else {
            seq![]
        }
    }
}

/// The pairs `(i, j)`, `i < n_rows`, `j < n_cols`, whose entry of `m` is
/// above the threshold, ordered by `i`, then `j`.
pub open spec fn hits(m: Seq<Seq<Overlap>>, n_rows: nat, n_cols: nat) -> Seq<(usize, usize)>
    decreases n_rows,
{
    if n_rows == 0 {
        seq![]
    } else {
        hits(m, (n_rows - 1) as nat, n_cols) + hits_in_row(m[n_rows - 1], n_rows - 1, n_cols)
    }
}

/// Every entry of `row` before `n` is below the threshold.
pub open spec fn all_below(row: Seq<Overlap>, n: int) -> bool {
    forall|j: int| 0 <= j < n ==> row[j] == Overlap::Below
}

/// The rows `i < n_rows` of `m` that lie below the threshold against every
/// one of the `n_cols` columns, in order.
pub open spec fn unmatched(m: Seq<Seq<Overlap>>, n_rows: nat, n_cols: nat) -> Seq<usize>
    decreases n_rows,
{
    if n_rows == 0 {
        seq![]
    } else {
        unmatched(m, (n_rows - 1) as nat, n_cols) + if all_below(m[n_rows - 1], n_cols as int) {
            seq![(n_rows - 1) as usize]
        } else {
            seq![]
        }
    }
}

/// The pairs of `pairs` whose two boxes have different classes.
pub open spec fn differing(pairs: Seq<(usize, usize)>, a: Seq<usize>, b: Seq<usize>) -> Seq<
    (usize, usize),
>
    decreases pairs.len(),
{
    if pairs.len() == 0 {
        seq![]
    } else {
        differing(pairs.drop_last(), a, b) + if a[pairs.last().0 as int] != b[pairs.last().1 as int] {
            seq![pairs.last()]
        } else {
            seq![]
        }
    }
}

/// The parts joined with commas.
pub open spec fn comma_joined(parts: Seq<Seq<char>>) -> Seq<char>
    decreases parts.len(),
{
    if parts.len() == 0 {
        seq![]
    } else if parts.len() == 1 {
        parts[0]
    } else {
        comma_joined(parts.drop_last()) + seq![','] + parts.last()
    }
}

/// The name of class `c` in `config`.
pub open spec fn class_name(config: DynLabelConfig, c: usize) -> Seq<char> {
    config@[c as int].name@
}

impl LabelDiff {
    pub open spec fn wf(&self) -> bool {
        &&& is_matrix(rows(self.a_to_b@), self.a@.len() as int, self.b@.len() as int)
        &&& is_matrix(rows(self.b_to_a@), self.b@.len() as int, self.a@.len() as int)
    }

    pub open spec fn intersection_spec(&self) -> Seq<(usize, usize)> {
        hits(rows(self.a_to_b@), self.a@.len(), self.b@.len())
    }

    pub open spec fn class_differences_spec(&self) -> Seq<(usize, usize)> {
        differing(self.intersection_spec(), self.a@, self.b@)
    }

    pub open spec fn only_in_a_spec(&self) -> Seq<usize> {
        unmatched(rows(self.a_to_b@), self.a@.len(), self.b@.len())
    }

    pub open spec fn only_in_b_spec(&self) -> Seq<usize> {
        unmatched(rows(self.b_to_a@), self.b@.len(), self.a@.len())
    }

    pub fn new(
        a: Vec<usize>,
        b: Vec<usize>,
        a_to_b: Vec<Vec<Overlap>>,
        b_to_a: Vec<Vec<Overlap>>,
    ) -> (d: LabelDiff)
        requires
            is_matrix(rows(a_to_b@), a@.len() as int, b@.len() as int),
            is_matrix(rows(b_to_a@), b@.len() as int, a@.len() as int),
        ensures
            d.wf(),
            d.a@ == a@,
            d.b@ == b@,
            d.a_to_b@ == a_to_b@,
            d.b_to_a@ == b_to_a@,
    {
        LabelDiff { a, b, a_to_b, b_to_a }
    }

    /// The pairs of boxes (`a` index, `b` index) that overlap above the
    /// threshold, every box of `a` against every box of `b`.
    pub fn intersection(&self) -> (r: Vec<(usize, usize)>)
        requires
            self.wf(),
        ensures
            r@ == self.intersection_spec(),
    {
        overlapping_pairs(&self.a_to_b, self.a.len(), self.b.len())
    }

    /// The overlapping pairs whose boxes have different classes.
    pub fn class_differences_itersection(&self) -> (r: Vec<(usize, usize)>)
        requires
            self.wf(),
        ensures
            r@ == self.class_differences_spec(),
    {
        let pairs = self.intersection();
        proof {
            assert(self.a@.len() == self.a.len() && self.b@.len() == self.b.len());
            lemma_hits_in_range(rows(self.a_to_b@), self.a@.len(), self.b@.len());
        }
        let mut r: Vec<(usize, usize)> = Vec::new();
        let mut k: usize = 0;
        while k < pairs.len()
            invariant
                k <= pairs@.len(),
                pairs@ == self.intersection_spec(),
                forall|q: int|
                    0 <= q < pairs@.len() ==> (#[trigger] pairs@[q]).0 < self.a@.len() && pairs@[q].1
                        < self.b@.len(),
                r@ == differing(pairs@.subrange(0, k as int), self.a@, self.b@),
            decreases pairs@.len() - k,
        {
            let (i, j) = pairs[k];
            assert(pairs@.subrange(0, k + 1).drop_last() =~= pairs@.subrange(0, k as int));
            if self.a[i] != self.b[j] {
                r.push((i, j));
            }
            k = k + 1;
        }
        assert(pairs@.subrange(0, pairs@.len() as int) =~= pairs@);
        r
    }

    /// The boxes of `a` that overlap no box of `b` (every overlap is below
    /// the threshold).
    pub fn only_in_a(&self) -> (r: Vec<usize>)
        requires
            self.wf(),
        ensures
            r@ == self.only_in_a_spec(),
    {
        unmatched_rows(&self.a_to_b, self.a.len(), self.b.len())
    }

    /// The boxes of `b` that overlap no box of `a`.
    pub fn only_in_b(&self) -> (r: Vec<usize>)
        requires
            self.wf(),
        ensures
            r@ == self.only_in_b_spec(),
    {
        unmatched_rows(&self.b_to_a, self.b.len(), self.a.len())
    }

    /// No box is in only one labeling, and overlapping boxes agree on
    /// their class.
    pub fn are_equal(&self) -> (r: bool)
        requires
            self.wf(),
        ensures
            r == (self.only_in_a_spec().len() == 0 && self.only_in_b_spec().len() == 0
                && self.class_differences_spec().len() == 0),
    {
        self.only_in_a().len() == 0 && self.only_in_b().len() == 0
            && self.class_differences_itersection().len() == 0
    }

    /// A line naming what differs: the classes only in `a`, the classes only
    /// in `b`, and the overlapping pairs whose classes differ.
    pub fn summary(&self, a_config: &DynLabelConfig, b_config: &DynLabelConfig) -> (r: String)
        requires
            self.wf(),
            forall|i: int| 0 <= i < self.a@.len() ==> #[trigger] self.a@[i] < a_config@.len(),
            forall|j: int| 0 <= j < self.b@.len() ==> #[trigger] self.b@[j] < b_config@.len(),
        ensures
            r@ == summary_text(
                self.only_in_a_spec().map_values(|i: usize| class_name(*a_config, self.a@[i as int])),
                self.only_in_b_spec().map_values(|j: usize| class_name(*b_config, self.b@[j as int])),
                self.class_differences_spec().map_values(
                    |p: (usize, usize)|
                        class_name(*a_config, self.a@[p.0 as int]) + seq![' ', '!', '=', ' ']
                            + class_name(*b_config, self.b@[p.1 as int]),
                ),
            ),
    {
        let only_a = self.only_in_a();
        let only_b = self.only_in_b();
        let diffs = self.class_differences_itersection();
        proof {
            assert(self.a@.len() == self.a.len() && self.b@.len() == self.b.len());
            lemma_unmatched_in_range(rows(self.a_to_b@), self.a@.len(), self.b@.len());
            lemma_unmatched_in_range(rows(self.b_to_a@), self.b@.len(), self.a@.len());
            lemma_hits_in_range(rows(self.a_to_b@), self.a@.len(), self.b@.len());
            lemma_differing_in(self.intersection_spec(), self.a@, self.b@);
        }
        let mut a_names: Vec<String> = Vec::new();
        let mut k: usize = 0;
        while k < only_a.len()
            invariant
                k <= only_a@.len(),
                forall|q: int| 0 <= q < only_a@.len() ==> (#[trigger] only_a@[q]) < self.a@.len(),
                forall|i: int| 0 <= i < self.a@.len() ==> #[trigger] self.a@[i] < a_config@.len(),
                a_names@.len() == k,
                forall|q: int|
                    0 <= q < k ==> (#[trigger] a_names@[q])@ == class_name(*a_config, self.a@[only_a@[q] as int]),
            decreases only_a@.len() - k,
        {
            a_names.push(name_of(a_config, self.a[only_a[k]]));
            k = k + 1;
        }
        let mut b_names: Vec<String> = Vec::new();
        let mut k: usize = 0;
        while k < only_b.len()
            invariant
                k <= only_b@.len(),
                forall|q: int| 0 <= q < only_b@.len() ==> (#[trigger] only_b@[q]) < self.b@.len(),
                forall|j: int| 0 <= j < self.b@.len() ==> #[trigger] self.b@[j] < b_config@.len(),
                b_names@.len() == k,
                forall|q: int|
                    0 <= q < k ==> (#[trigger] b_names@[q])@ == class_name(*b_config, self.b@[only_b@[q] as int]),
            decreases only_b@.len() - k,
        {
            b_names.push(name_of(b_config, self.b[only_b[k]]));
            k = k + 1;
        }
        let mut d_names: Vec<String> = Vec::new();
        let mut k: usize = 0;
        while k < diffs.len()
            invariant
                k <= diffs@.len(),
                forall|q: int|
                    0 <= q < diffs@.len() ==> (#[trigger] diffs@[q]).0 < self.a@.len() && diffs@[q].1
                        < self.b@.len(),
                forall|i: int| 0 <= i < self.a@.len() ==> #[trigger] self.a@[i] < a_config@.len(),
                forall|j: int| 0 <= j < self.b@.len() ==> #[trigger] self.b@[j] < b_config@.len(),
                d_names@.len() == k,
                forall|q: int|
                    0 <= q < k ==> (#[trigger] d_names@[q])@ == class_name(*a_config, self.a@[diffs@[q].0 as int])
                        + seq![' ', '!', '=', ' '] + class_name(*b_config, self.b@[diffs@[q].1 as int]),
            decreases diffs@.len() - k,
        {
            let (i, j) = diffs[k];
            let mut item = name_of(a_config, self.a[i]);
            item.append(" != ");
            item.append(name_of(b_config, self.b[j]).as_str());
            proof {
                reveal_strlit(" != ");
            }
            d_names.push(item);
            k = k + 1;
        }
        let mut out = String::from_str("only a ");
        out.append(join_comma(&a_names).as_str());
        out.append("; only b ");
        out.append(join_comma(&b_names).as_str());
        out.append("; diffs ");
        out.append(join_comma(&d_names).as_str());
        proof {
            reveal_strlit("only a ");
            reveal_strlit("; only b ");
            reveal_strlit("; diffs ");
            assert(views_of(a_names@) =~= only_a@.map_values(
                |i: usize| class_name(*a_config, self.a@[i as int]),
            ));
            assert(views_of(b_names@) =~= only_b@.map_values(
                |j: usize| class_name(*b_config, self.b@[j as int]),
            ));
            assert(views_of(d_names@) =~= diffs@.map_values(
                |p: (usize, usize)|
                    class_name(*a_config, self.a@[p.0 as int]) + seq![' ', '!', '=', ' ']
                        + class_name(*b_config, self.b@[p.1 as int]),
            ));
        }
        out
    }
}

/// The text of a summary of the names only in `a`, only in `b`, and of the
/// differing pairs.
pub open spec fn summary_text(
    only_a: Seq<Seq<char>>,
    only_b: Seq<Seq<char>>,
    diffs: Seq<Seq<char>>,
) -> Seq<char> {
    seq!['o', 'n', 'l', 'y', ' ', 'a', ' '] + comma_joined(only_a) + seq![
        ';',
        ' ',
        'o',
        'n',
        'l',
        'y',
        ' ',
        'b',
        ' ',
    ] + comma_joined(only_b) + seq![';', ' ', 'd', 'i', 'f', 'f', 's', ' '] + comma_joined(diffs)
}

pub open spec fn views_of(v: Seq<String>) -> Seq<Seq<char>> {
    v.map_values(|s: String| s@)
}

/// The name of class `c`.
fn name_of(config: &DynLabelConfig, c: usize) -> (r: String)
    requires
        c < config@.len(),
    ensures
        r@ == class_name(*config, c),
{
    match config.label_from_usize(c) {
        Some(l) => l.name,
        None => String::new(),
    }
}

/// The parts joined with commas.
fn join_comma(parts: &Vec<String>) -> (r: String)
    ensures
        r@ == comma_joined(views_of(parts@)),
{
    let ghost all = views_of(parts@);
    let mut out = String::new();
    let mut k: usize = 0;
    while k < parts.len()
        invariant
            k <= parts@.len(),
            all == views_of(parts@),
            out@ == comma_joined(all.subrange(0, k as int)),
        decreases parts@.len() - k,
    {
        let ghost before = all.subrange(0, k as int);
        assert(all.subrange(0, k + 1).drop_last() =~= before);
        if k > 0 {
            out.append(",");
            proof {
                reveal_strlit(",");
            }
        } else {
            assert(out@ =~= Seq::<char>::empty());
        }
        out.append(parts[k].as_str());
        k = k + 1;
    }
    assert(all.subrange(0, parts@.len() as int) =~= all);
    out
}

/// The entries of `m` above the threshold, row by row (see `hits`).
pub fn overlapping_pairs(m: &Vec<Vec<Overlap>>, na: usize, nb: usize) -> (r: Vec<(usize, usize)>)
    requires
        is_matrix(rows(m@), na as int, nb as int),
    ensures
        r@ == hits(rows(m@), na as nat, nb as nat),
{
    let ghost mm = rows(m@);
    let mut r: Vec<(usize, usize)> = Vec::new();
    let mut i: usize = 0;
    while i < na
        invariant
            mm == rows(m@),
            is_matrix(mm, na as int, nb as int),
            i <= na,
            r@ == hits(mm, i as nat, nb as nat),
        decreases na - i,
    {
        let row = &m[i];
        assert(row@ == mm[i as int]);
        let mut j: usize = 0;
        while j < nb
            invariant
                nb == row@.len(),
                i < na,
                j <= nb,
                r@ == hits(mm, i as nat, nb as nat) + hits_in_row(row@, i as int, j as nat),
            decreases nb - j,
        {
            if row[j] == Overlap::Above {
                r.push((i, j));
            }
            j = j + 1;
        }
        i = i + 1;
    }
    r
}

/// The rows of `m` that are below the threshold in every column.
fn unmatched_rows(m: &Vec<Vec<Overlap>>, n_rows: usize, n_cols: usize) -> (r: Vec<usize>)
    requires
        is_matrix(rows(m@), n_rows as int, n_cols as int),
    ensures
        r@ == unmatched(rows(m@), n_rows as nat, n_cols as nat),
{
    let ghost mm = rows(m@);
    let mut r: Vec<usize> = Vec::new();
    let mut i: usize = 0;
    while i < n_rows
        invariant
            mm == rows(m@),
            is_matrix(mm, n_rows as int, n_cols as int),
            i <= n_rows,
            r@ == unmatched(mm, i as nat, n_cols as nat),
        decreases n_rows - i,
    {
        let row = &m[i];
        assert(row@ == mm[i as int]);
        let mut below = true;
        let mut j: usize = 0;
        while j < n_cols
            invariant
                n_cols == row@.len(),
                j <= n_cols,
                below == all_below(row@, j as int),
            decreases n_cols - j,
        {
            if row[j] != Overlap::Below {
                below = false;
            }
            j = j + 1;
        }
        if below {
            r.push(i);
        }
        i = i + 1;
    }
    r
}

/// The first row of `m` that is below the threshold in every column.
pub fn first_unmatched(m: &Vec<Vec<Overlap>>, n_cols: usize) -> (r: Option<usize>)
    requires
        is_matrix(rows(m@), m@.len() as int, n_cols as int),
    ensures
        r is None <==> unmatched(rows(m@), m@.len(), n_cols as nat).len() == 0,
        r matches Some(i) ==> i == unmatched(rows(m@), m@.len(), n_cols as nat)[0],
{
    let all = unmatched_rows(m, m.len(), n_cols);
    if all.len() == 0 {
        None
    } else {
        Some(all[0])
    }
}

pub proof fn lemma_hits_in_row_in_range(row: Seq<Overlap>, i: int, n: nat)
    requires
        0 <= i <= usize::MAX,
        n <= usize::MAX,
    ensures
        forall|q: int|
            0 <= q < hits_in_row(row, i, n).len() ==> (#[trigger] hits_in_row(row, i, n)[q]).0 == i
                && hits_in_row(row, i, n)[q].1 < n,
    decreases n,
{
    if n > 0 {
        lemma_hits_in_row_in_range(row, i, (n - 1) as nat);
        let front = hits_in_row(row, i, (n - 1) as nat);
        assert forall|q: int| 0 <= q < hits_in_row(row, i, n).len() implies (#[trigger] hits_in_row(
            row,
            i,
            n,
        )[q]).0 == i && hits_in_row(row, i, n)[q].1 < n by {
            if q < front.len() {
                assert(hits_in_row(row, i, n)[q] == front[q]);
            }
        }
    }
}

pub proof fn lemma_hits_in_range(m: Seq<Seq<Overlap>>, n_rows: nat, n_cols: nat)
    requires
        n_rows <= usize::MAX,
        n_cols <= usize::MAX,
    ensures
        forall|q: int|
            0 <= q < hits(m, n_rows, n_cols).len() ==> (#[trigger] hits(m, n_rows, n_cols)[q]).0 < n_rows
                && hits(m, n_rows, n_cols)[q].1 < n_cols,
    decreases n_rows,
{
    if n_rows > 0 {
        lemma_hits_in_range(m, (n_rows - 1) as nat, n_cols);
        lemma_hits_in_row_in_range(m[n_rows - 1], n_rows - 1, n_cols);
        let front = hits(m, (n_rows - 1) as nat, n_cols);
        let back = hits_in_row(m[n_rows - 1], n_rows - 1, n_cols);
        assert forall|q: int| 0 <= q < hits(m, n_rows, n_cols).len() implies (#[trigger] hits(
            m,
            n_rows,
            n_cols,
        )[q]).0 < n_rows && hits(m, n_rows, n_cols)[q].1 < n_cols by {
            if q < front.len() {
                assert(hits(m, n_rows, n_cols)[q] == front[q]);
            } else {
                assert(hits(m, n_rows, n_cols)[q] == back[q - front.len()]);
            }
        }
    }
}

pub proof fn lemma_unmatched_in_range(m: Seq<Seq<Overlap>>, n_rows: nat, n_cols: nat)
    requires
        n_rows <= usize::MAX,
    ensures
        forall|q: int|
            0 <= q < unmatched(m, n_rows, n_cols).len() ==> #[trigger] unmatched(m, n_rows, n_cols)[q]
                < n_rows,
    decreases n_rows,
{
    if n_rows > 0 {
        lemma_unmatched_in_range(m, (n_rows - 1) as nat, n_cols);
        let front = unmatched(m, (n_rows - 1) as nat, n_cols);
        assert forall|q: int| 0 <= q < unmatched(m, n_rows, n_cols).len() implies #[trigger] unmatched(
            m,
            n_rows,
            n_cols,
        )[q] < n_rows by {
            if q < front.len() {
                assert(unmatched(m, n_rows, n_cols)[q] == front[q]);
            }
        }
    }
}

pub proof fn lemma_differing_in(pairs: Seq<(usize, usize)>, a: Seq<usize>, b: Seq<usize>)
    ensures
        forall|q: int|
            0 <= q < differing(pairs, a, b).len() ==> pairs.contains(
                #[trigger] differing(pairs, a, b)[q],
            ),
    decreases pairs.len(),
{
    if pairs.len() > 0 {
        lemma_differing_in(pairs.drop_last(), a, b);
        let front = differing(pairs.drop_last(), a, b);
        assert forall|q: int| 0 <= q < differing(pairs, a, b).len() implies pairs.contains(
            #[trigger] differing(pairs, a, b)[q],
        ) by {
            if q < front.len() {
                let w = choose|w: int| 0 <= w < pairs.drop_last().len() && pairs.drop_last()[w] == front[q];
                assert(pairs[w] == front[q]);
            } else {
                assert(pairs[pairs.len() - 1] == pairs.last());
            }
        }
    }
}

pub proof fn lemma_hits_in_row_membership(row: Seq<Overlap>, i: int, n: nat, j: int)
    requires
        0 <= i <= usize::MAX,
        n <= usize::MAX,
    ensures
        hits_in_row(row, i, n).contains((i as usize, j as usize)) && 0 <= j <= usize::MAX <==> (0
            <= j < n && row[j] == Overlap::Above),
    decreases n,
{
    if n > 0 {
        lemma_hits_in_row_membership(row, i, (n - 1) as nat, j);
        let front = hits_in_row(row, i, (n - 1) as nat);
        let whole = hits_in_row(row, i, n);
        lemma_hits_in_row_in_range(row, i, (n - 1) as nat);
        if whole.contains((i as usize, j as usize)) && 0 <= j <= usize::MAX {
            let q = choose|q: int| 0 <= q < whole.len() && whole[q] == (i as usize, j as usize);
            if q < front.len() {
                assert(front[q] == whole[q]);
                assert(front.contains((i as usize, j as usize)));
            }
        }
        if 0 <= j < n && row[j] == Overlap::Above {
            if j < n - 1 {
                let q = choose|q: int| 0 <= q < front.len() && front[q] == (i as usize, j as usize);
                assert(whole[q] == front[q]);
            } else {
                assert(whole[whole.len() - 1] == (i as usize, j as usize));
            }
        }
    }
}

pub proof fn lemma_hits_membership(m: Seq<Seq<Overlap>>, n_rows: nat, n_cols: nat, i: int, j: int)
    requires
        n_rows <= usize::MAX,
        n_cols <= usize::MAX,
        0 <= i <= usize::MAX,
        0 <= j <= usize::MAX,
    ensures
        hits(m, n_rows, n_cols).contains((i as usize, j as usize)) <==> (i < n_rows && j < n_cols
            && m[i][j] == Overlap::Above),
    decreases n_rows,
{
    if n_rows > 0 {
        let r = n_rows - 1;
        lemma_hits_membership(m, r as nat, n_cols, i, j);
        lemma_hits_in_range(m, r as nat, n_cols);
        lemma_hits_in_row_in_range(m[r], r, n_cols);
        lemma_hits_in_row_membership(m[r], r, n_cols, j);
        let front = hits(m, r as nat, n_cols);
        let back = hits_in_row(m[r], r, n_cols);
        let whole = hits(m, n_rows, n_cols);
        assert(whole == front + back);
        if whole.contains((i as usize, j as usize)) {
            let q = choose|q: int| 0 <= q < whole.len() && whole[q] == (i as usize, j as usize);
            if q < front.len() {
                assert(front[q] == whole[q]);
                assert(front.contains((i as usize, j as usize)));
            } else {
                assert(back[q - front.len()] == whole[q]);
                assert(back.contains((i as usize, j as usize)));
                assert(i == r);
            }
        }
        if i < n_rows && j < n_cols && m[i][j] == Overlap::Above {
            if i < r {
                let q = choose|q: int| 0 <= q < front.len() && front[q] == (i as usize, j as usize);
                assert(whole[q] == front[q]);
            } else {
                let q = choose|q: int| 0 <= q < back.len() && back[q] == (i as usize, j as usize);
                assert(whole[front.len() + q] == back[q]);
            }
        }
    }
}

pub proof fn lemma_unmatched_membership(m: Seq<Seq<Overlap>>, n_rows: nat, n_cols: nat, i: int)
    requires
        n_rows <= usize::MAX,
        0 <= i <= usize::MAX,
    ensures
        unmatched(m, n_rows, n_cols).contains(i as usize) <==> (i < n_rows && all_below(
            m[i],
            n_cols as int,
        )),
    decreases n_rows,
{
    if n_rows > 0 {
        let r = n_rows - 1;
        lemma_unmatched_membership(m, r as nat, n_cols, i);
        lemma_unmatched_in_range(m, r as nat, n_cols);
        let front = unmatched(m, r as nat, n_cols);
        let whole = unmatched(m, n_rows, n_cols);
        if whole.contains(i as usize) {
            let q = choose|q: int| 0 <= q < whole.len() && whole[q] == i as usize;
            if q < front.len() {
                assert(front[q] == whole[q]);
                assert(front.contains(i as usize));
            }
        }
        if i < n_rows && all_below(m[i], n_cols as int) {
            if i < r {
                let q = choose|q: int| 0 <= q < front.len() && front[q] == i as usize;
                assert(whole[q] == front[q]);
            } else {
                assert(whole[whole.len() - 1] == i as usize);
            }
        }
    }
}

pub proof fn lemma_no_differing(pairs: Seq<(usize, usize)>, a: Seq<usize>, b: Seq<usize>)
    requires
        differing(pairs, a, b).len() == 0,
    ensures
        forall|q: int| 0 <= q < pairs.len() ==> a[(#[trigger] pairs[q]).0 as int] == b[pairs[q].1 as int],
    decreases pairs.len(),
{
    if pairs.len() > 0 {
        lemma_no_differing(pairs.drop_last(), a, b);
        assert forall|q: int| 0 <= q < pairs.len() implies a[(#[trigger] pairs[q]).0 as int]
            == b[pairs[q].1 as int] by {
            if q < pairs.len() - 1 {
                assert(pairs.drop_last()[q] == pairs[q]);
            }
        }
    }
}

/// A box that is only in `a` is in no overlapping pair.
pub proof fn law_unmatched_boxes_are_in_no_pair(d: LabelDiff, i: usize, j: usize)
    requires
        d.wf(),
    ensures
        d.only_in_a_spec().contains(i) ==> !d.intersection_spec().contains((i, j)),
{
    assert(d.a@.len() == d.a.len() && d.b@.len() == d.b.len());
    let ab = rows(d.a_to_b@);
    lemma_hits_membership(ab, d.a@.len(), d.b@.len(), i as int, j as int);
    lemma_unmatched_membership(ab, d.a@.len(), d.b@.len(), i as int);
    if d.only_in_a_spec().contains(i) && j < d.b@.len() {
        assert(ab[i as int][j as int] == Overlap::Below);
    }
}

/// Comparing `b` with `a` gives the boxes only in `a` and only in `b` that
/// comparing `a` with `b` gives, the other way round.
pub proof fn law_swapped_comparison(d: LabelDiff, e: LabelDiff)
    requires
        d.wf(),
        e.a@ == d.b@,
        e.b@ == d.a@,
        e.a_to_b@ == d.b_to_a@,
        e.b_to_a@ == d.a_to_b@,
    ensures
        e.wf(),
        e.only_in_a_spec() == d.only_in_b_spec(),
        e.only_in_b_spec() == d.only_in_a_spec(),
{
}

/// When two labelings are equal, every overlapping pair of boxes has one
/// class.
pub proof fn law_equal_labelings_agree_on_classes(d: LabelDiff)
    requires
        d.wf(),
        d.class_differences_spec().len() == 0,
    ensures
        forall|q: int|
            0 <= q < d.intersection_spec().len() ==> d.a@[(#[trigger] d.intersection_spec()[q]).0 as int]
                == d.b@[d.intersection_spec()[q].1 as int],
{
    lemma_no_differing(d.intersection_spec(), d.a@, d.b@);
}


/// The number of characters in all the parts together.
pub open spec fn total_len(parts: Seq<Seq<char>>) -> int
    decreases parts.len(),
{
    if parts.len() == 0 {
        0
    } else {
        total_len(parts.drop_last()) + parts.last().len()
    }
}

/// Joining with commas keeps every character of every part and puts one
/// comma between each two parts; the last part ends the text.
pub proof fn law_comma_joined_keeps_every_part(parts: Seq<Seq<char>>)
    ensures
        parts.len() == 0 ==> comma_joined(parts).len() == 0,
        parts.len() > 0 ==> comma_joined(parts).len() == total_len(parts) + parts.len() - 1,
        parts.len() > 0 ==> comma_joined(parts).subrange(
            comma_joined(parts).len() - parts.last().len(),
            comma_joined(parts).len() as int,
        ) == parts.last(),
    decreases parts.len(),
{
    if parts.len() == 1 {
        assert(parts.drop_last().len() == 0);
        assert(comma_joined(parts).subrange(0, parts[0].len() as int) =~= parts[0]);
    } else if parts.len() > 1 {
        law_comma_joined_keeps_every_part(parts.drop_last());
        let c = comma_joined(parts);
        assert(c.subrange(c.len() - parts.last().len(), c.len() as int) =~= parts.last());
    }
}

/// A summary reads, in this order: `only a `, the names only in `a` joined
/// with commas, `; only b `, the names only in `b` joined with commas,
/// `; diffs `, and the differing pairs joined with commas.
pub proof fn law_summary_names_each_part(only_a: Seq<Seq<char>>, only_b: Seq<Seq<char>>, diffs: Seq<Seq<char>>)
    ensures
        ({
            let t = summary_text(only_a, only_b, diffs);
            let a_end: int = 7 + comma_joined(only_a).len() as int;
            let b_start: int = a_end + 9;
            let b_end: int = b_start + comma_joined(only_b).len();
            &&& t.len() == b_end + 8 + comma_joined(diffs).len()
            &&& t.subrange(0, 7) == seq!['o', 'n', 'l', 'y', ' ', 'a', ' ']
            &&& t.subrange(7, a_end) == comma_joined(only_a)
            &&& t.subrange(a_end, b_start) == seq![';', ' ', 'o', 'n', 'l', 'y', ' ', 'b', ' ']
            &&& t.subrange(b_start, b_end) == comma_joined(only_b)
            &&& t.subrange(b_end, b_end + 8) == seq![';', ' ', 'd', 'i', 'f', 'f', 's', ' ']
            &&& t.subrange(b_end + 8, t.len() as int) == comma_joined(diffs)
        }),
{
    let t = summary_text(only_a, only_b, diffs);
    let a_end: int = 7 + comma_joined(only_a).len() as int;
    let b_start: int = a_end + 9;
    let b_end: int = b_start + comma_joined(only_b).len();
    assert(t.subrange(0, 7) =~= seq!['o', 'n', 'l', 'y', ' ', 'a', ' ']);
    assert(t.subrange(7, a_end) =~= comma_joined(only_a));
    assert(t.subrange(a_end, b_start) =~= seq![';', ' ', 'o', 'n', 'l', 'y', ' ', 'b', ' ']);
    assert(t.subrange(b_start, b_end) =~= comma_joined(only_b));
    assert(t.subrange(b_end, b_end + 8) =~= seq![';', ' ', 'd', 'i', 'f', 'f', 's', ' ']);
    assert(t.subrange(b_end + 8, t.len() as int) =~= comma_joined(diffs));
}

/// The boxes named in a summary's `only b` part are exactly the boxes of
/// `b` that overlap no box of `a` above the threshold, in order.
pub proof fn law_only_in_b_are_the_unmatched_boxes(d: LabelDiff, j: int)
    requires
        d.wf(),
        0 <= j < d.b@.len(),
    ensures
        d.only_in_b_spec().contains(j as usize) <==> all_below(rows(d.b_to_a@)[j], d.a@.len() as int),
{
    assert(d.b@.len() == d.b.len());
    lemma_unmatched_membership(rows(d.b_to_a@), d.b@.len(), d.a@.len(), j);
}

} // verus!
