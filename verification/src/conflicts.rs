//! Comparing a ground-truth labeling with the labelings that models
//! predicted for the same images.
use crate::dataset::{label_name_for, views, DynLabelConfig};
use crate::paths::{contains, contains_seq, join, join_of, same_text, with_txt_extension};
use crate::shady::yolov7_text;
use vstd::prelude::*;

verus! {

/// The labeling on display: the ground truth, or the prediction in the
/// directory with the given index.
#[derive(Clone, Copy, Debug, PartialEq, Eq, Structural)]
pub enum CurrentDataset {
    GroundTruth,
    Predicted(usize),
}

/// The number of a labeling: 0 for the ground truth, `i + 1` for prediction `i`.
pub open spec fn dataset_number(d: CurrentDataset) -> int {
    match d {
        CurrentDataset::GroundTruth => 0,
        CurrentDataset::Predicted(i) => i + 1,
    }
}

/// The labeling with number `i`.
pub open spec fn dataset_with_number(i: int) -> CurrentDataset {
    if i == 0 {
        CurrentDataset::GroundTruth
    } else {
        CurrentDataset::Predicted((i - 1) as usize)
    }
}

impl CurrentDataset {
    pub fn to_usize(&self) -> (r: usize)
        requires
            dataset_number(*self) <= usize::MAX,
        ensures
            r == dataset_number(*self),
    {
        match self {
            CurrentDataset::GroundTruth => 0,
            CurrentDataset::Predicted(i) => *i + 1,
        }
    }

    pub fn from_usize(i: usize) -> (r: CurrentDataset)
        ensures
            r == dataset_with_number(i as int),
    {
        if i == 0 {
            CurrentDataset::GroundTruth
        } else {
            CurrentDataset::Predicted(i - 1)
        }
    }

    /// Moves `offset` labelings on, cycling through the `max_size`
    /// labelings.
    pub fn offset(&mut self, offset: i32, max_size: usize)
        requires
            0 < max_size <= i32::MAX,
            dataset_number(*old(self)) <= i32::MAX,
            i32::MIN <= dataset_number(*old(self)) + offset <= i32::MAX,
        ensures
            *final(self) == dataset_with_number((dataset_number(*old(self)) + offset) % (max_size as int)),
    {
        let i = self.to_usize();
        let s: i64 = i as i64 + offset as i64;
        let m: i64 = max_size as i64;
        let new_i: i64 = if s >= 0 {
            s % m
        } else {
            let t: i64 = (-s) % m;
            if t == 0 {
                0
            } else {
                m - t
            }
        };
        proof {
            lemma_euclid_mod(s as int, m as int);
        }
        *self = CurrentDataset::from_usize(new_i as usize);
    }

    /// The next labeling that exists for the current image, after the one
    /// that exists and is closest to the current one (the first of equally
    /// close ones): the ground truth always exists, prediction `i` when
    /// `has_prediction[i]`.
    pub fn cycle_existing(&self, has_prediction: &Vec<bool>) -> (r: CurrentDataset)
        requires
            has_prediction@.len() < usize::MAX,
            dataset_number(*self) <= usize::MAX,
        ensures
            ({
                let ex = existing_numbers(has_prediction@);
                let p = closest_position(ex, dataset_number(*self), ex.len() as int);
                r == dataset_with_number(ex[(p + 1) % (ex.len() as int)] as int)
            }),
    {
        let current = self.to_usize();
        let mut existing: Vec<usize> = Vec::new();
        existing.push(0);
        let mut i: usize = 0;
        while i < has_prediction.len()
            invariant
                i <= has_prediction@.len() < usize::MAX,
                existing@ == existing_numbers(has_prediction@.subrange(0, i as int)),
            decreases has_prediction@.len() - i,
        {
            assert(has_prediction@.subrange(0, i + 1).drop_last() =~= has_prediction@.subrange(
                0,
                i as int,
            ));
            if has_prediction[i] {
                existing.push(i + 1);
            }
            i = i + 1;
        }
        assert(has_prediction@.subrange(0, has_prediction@.len() as int) =~= has_prediction@);
        let ghost ex = existing@;
        proof {
            lemma_existing_numbers_nonempty(has_prediction@);
        }
        let mut best: usize = 0;
        let mut k: usize = 1;
        while k < existing.len()
            invariant
                ex == existing@,
                ex.len() > 0,
                1 <= k <= ex.len(),
                best == closest_position(ex, current as int, k as int),
                best < k,
            decreases ex.len() - k,
        {
            let d_best = abs_diff(current, existing[best]);
            let d_k = abs_diff(current, existing[k]);
            if d_k < d_best {
                best = k;
            }
            k = k + 1;
        }
        let next = (best + 1) % existing.len();
        CurrentDataset::from_usize(existing[next])
    }
}

/// The numbers of the labelings that exist: 0, then `i + 1` for each
/// prediction `i` that exists.
pub open spec fn existing_numbers(has_prediction: Seq<bool>) -> Seq<usize>
    decreases has_prediction.len(),
{
    if has_prediction.len() == 0 {
        seq![0usize]
    } else {
        existing_numbers(has_prediction.drop_last()) + if has_prediction.last() {
            seq![has_prediction.len() as usize]
        } else {
            seq![]
        }
    }
}

pub open spec fn distance(a: int, b: int) -> int {
    if a >= b {
        a - b
    } else {
        b - a
    }
}

/// The position, among the first `n` entries of `ex`, of the first entry
/// closest to `current`.
pub open spec fn closest_position(ex: Seq<usize>, current: int, n: int) -> int
    decreases n,
{
    if n <= 1 {
        0
    } else {
        let prev = closest_position(ex, current, n - 1);
        if distance(current, ex[n - 1] as int) < distance(current, ex[prev] as int) {
            n - 1
        } else {
            prev
        }
    }
}

proof fn lemma_existing_numbers_nonempty(h: Seq<bool>)
    requires
        h.len() < usize::MAX,
    ensures
        existing_numbers(h).len() > 0,
        existing_numbers(h)[0] == 0,
        forall|q: int|
            1 <= q < existing_numbers(h).len() ==> 1 <= #[trigger] existing_numbers(h)[q] <= h.len()
                && h[existing_numbers(h)[q] - 1],
    decreases h.len(),
{
    if h.len() > 0 {
        lemma_existing_numbers_nonempty(h.drop_last());
        let front = existing_numbers(h.drop_last());
        assert forall|q: int| 1 <= q < existing_numbers(h).len() implies 1
            <= #[trigger] existing_numbers(h)[q] <= h.len() && h[existing_numbers(h)[q] - 1] by {
            if q < front.len() {
                assert(existing_numbers(h)[q] == front[q]);
                assert(h.drop_last()[front[q] - 1] == h[front[q] - 1]);
            } else {
                assert(h.last());
                assert(existing_numbers(h)[q] == h.len());
            }
        }
    }
}

proof fn lemma_closest_position_in_range(ex: Seq<usize>, current: int, n: int)
    requires
        n >= 1,
    ensures
        0 <= closest_position(ex, current, n) < n,
    decreases n,
{
    if n > 1 {
        lemma_closest_position_in_range(ex, current, n - 1);
    }
}

/// Every labeling that `cycle_existing` turns to exists.
pub proof fn law_cycle_lands_on_existing(has_prediction: Seq<bool>, current: int)
    requires
        has_prediction.len() < usize::MAX,
    ensures
        ({
            let ex = existing_numbers(has_prediction);
            let p = closest_position(ex, current, ex.len() as int);
            match dataset_with_number(ex[(p + 1) % (ex.len() as int)] as int) {
                CurrentDataset::GroundTruth => true,
                CurrentDataset::Predicted(i) => i < has_prediction.len() && has_prediction[i as int],
            }
        }),
{
    let ex = existing_numbers(has_prediction);
    lemma_existing_numbers_nonempty(has_prediction);
    lemma_closest_position_in_range(ex, current, ex.len() as int);
    let p = closest_position(ex, current, ex.len() as int);
    let q = (p + 1) % (ex.len() as int);
    assert(0 <= q < ex.len());
    if q >= 1 {
        assert(1 <= ex[q] <= has_prediction.len() && has_prediction[ex[q] - 1]);
    }
}

/// Numbering and renumbering give back the labeling.
pub proof fn law_number_roundtrip(d: CurrentDataset, i: usize)
    ensures
        dataset_number(d) <= usize::MAX ==> dataset_with_number(dataset_number(d)) == d,
        dataset_number(dataset_with_number(i as int)) == i,
{
}

/// Moving on by one and back by one returns to the same labeling.
pub proof fn law_offset_there_and_back(n: int, max_size: int)
    requires
        0 < max_size,
        0 <= n < max_size,
    ensures
        (((n + 1) % max_size) - 1) % max_size == n,
{
    lemma_euclid_mod(n + 1, max_size);
    if n + 1 < max_size {
        assert((n + 1) % max_size == n + 1) by (nonlinear_arith)
            requires
                0 <= n + 1 < max_size,
        ;
    } else {
        assert((n + 1) % max_size == 0) by (nonlinear_arith)
            requires
                n + 1 == max_size,
                0 < max_size,
        ;
        assert((0 - 1) % max_size == max_size - 1) by (nonlinear_arith)
            requires
                0 < max_size,
        ;
    }
    assert(n % max_size == n) by (nonlinear_arith)
        requires
            0 <= n < max_size,
    ;
}

proof fn lemma_euclid_mod(s: int, m: int)
    requires
        m > 0,
    ensures
        s >= 0 ==> s % m == s % m,
        s < 0 ==> ((-s) % m == 0 ==> s % m == 0),
        s < 0 ==> ((-s) % m != 0 ==> s % m == m - (-s) % m),
{
    if s < 0 {
        let t = (-s) % m;
        let q = (-s) / m;
        assert(-s == q * m + t) by (nonlinear_arith)
            requires
                m > 0,
                t == (-s) % m,
                q == (-s) / m,
        ;
        assert(0 <= t < m) by (nonlinear_arith)
            requires
                m > 0,
                t == (-s) % m,
        ;
        if t == 0 {
            assert(s == (-q) * m) by (nonlinear_arith)
                requires
                    -s == q * m + t,
                    t == 0,
            ;
            vstd::arithmetic::div_mod::lemma_mod_multiples_basic(-q, m);
        } else {
            assert(s == (-q - 1) * m + (m - t)) by (nonlinear_arith)
                requires
                    -s == q * m + t,
            ;
            assert(s % m == m - t) by (nonlinear_arith)
                requires
                    s == (-q - 1) * m + (m - t),
                    0 < m - t < m,
            ;
        }
    }
}

fn abs_diff(a: usize, b: usize) -> (r: usize)
    ensures
        r == distance(a as int, b as int),
{
    if a >= b {
        a - b
    } else {
        b - a
    }
}

/// Whether a subdirectory holds predictions (it is not the ground truth,
/// `normal`).
pub fn is_prediction_dir(dirname: &str) -> (r: bool)
    ensures
        r == (dirname@ != seq!['n', 'o', 'r', 'm', 'a', 'l']),
{
    proof {
        reveal_strlit("normal");
        assert("normal"@ =~= seq!['n', 'o', 'r', 'm', 'a', 'l']);
    }
    !same_text(dirname, "normal")
}

/// Where a prediction directory keeps the labels of an image: the image's
/// name with the extension `txt`, in that directory.
pub fn prediction_label_path(pred_dir: &str, image_name: &str) -> (r: String)
    requires
        image_name@.len() < i64::MAX,
    ensures
        r@ == join_of(pred_dir@, label_name_for(image_name@)),
{
    let name = with_txt_extension(image_name);
    join(pred_dir, name.as_str())
}

/// The label configuration of a prediction directory: value classes for
/// YOLOv7 predictions, value-and-suit classes otherwise.
pub fn prediction_config_file(dirname: &str) -> (r: &'static str)
    ensures
        contains_seq(dirname@, yolov7_text()) ==> r@ == seq![
            'l',
            'a',
            'b',
            'e',
            'l',
            's',
            '_',
            '1',
            '3',
            '.',
            't',
            'o',
            'm',
            'l',
        ],
        !contains_seq(dirname@, yolov7_text()) ==> r@ == seq![
            'l',
            'a',
            'b',
            'e',
            'l',
            's',
            '_',
            '5',
            '2',
            '.',
            't',
            'o',
            'm',
            'l',
        ],
{
    proof {
        reveal_strlit("yolov7");
        reveal_strlit("labels_13.toml");
        reveal_strlit("labels_52.toml");
        assert("yolov7"@ =~= yolov7_text());
    }
    if contains(dirname, "yolov7") {
        "labels_13.toml"
    } else {
        "labels_52.toml"
    }
}

/// The first character of the name of class `c`.
pub open spec fn initial(config: DynLabelConfig, c: usize) -> char {
    config@[c as int].name@[0]
}

/// How many of the classes have a name that starts with `ch`.
pub open spec fn count_initial(classes: Seq<usize>, config: DynLabelConfig, ch: char) -> int
    decreases classes.len(),
{
    if classes.len() == 0 {
        0
    } else {
        count_initial(classes.drop_last(), config, ch) + if initial(config, classes.last()) == ch {
            1int
        } else {
            0
        }
    }
}

/// The classes all exist in the configuration and their names start with an
/// ASCII character.
pub open spec fn names_have_ascii_initials(classes: Seq<usize>, config: DynLabelConfig) -> bool {
    forall|k: int|
        0 <= k < classes.len() ==> {
            &&& #[trigger] classes[k] < config@.len()
            &&& config@[classes[k] as int].name@.len() > 0
            &&& (config@[classes[k] as int].name@[0] as u32) < 128
        }
}

/// How many more boxes of the ground truth than of the shown labeling have
/// a class whose name starts with `ch`.
pub open spec fn initial_difference(
    gt: Seq<usize>,
    gt_config: DynLabelConfig,
    shown: Seq<usize>,
    shown_config: DynLabelConfig,
    ch: char,
) -> int {
    count_initial(gt, gt_config, ch) - count_initial(shown, shown_config, ch)
}

/// For each first letter of a class name whose count differs between the
/// ground truth and the shown labeling, the letter and the difference, in
/// the order of the letters.
pub fn label_differences(
    gt: &Vec<usize>,
    gt_config: &DynLabelConfig,
    shown: &Vec<usize>,
    shown_config: &DynLabelConfig,
) -> (r: Vec<(String, i32)>)
    requires
        names_have_ascii_initials(gt@, *gt_config),
        names_have_ascii_initials(shown@, *shown_config),
        gt@.len() <= i32::MAX,
        shown@.len() <= i32::MAX,
    ensures
        forall|q: int, w: int| 0 <= q < w < r@.len() ==> r@[q].0@[0] < r@[w].0@[0],
        forall|q: int|
            0 <= q < r@.len() ==> {
                &&& (#[trigger] r@[q]).0@.len() == 1
                &&& r@[q].1 == initial_difference(gt@, *gt_config, shown@, *shown_config, r@[q].0@[0])
                &&& r@[q].1 != 0
            },
        forall|ch: char|
            initial_difference(gt@, *gt_config, shown@, *shown_config, ch) != 0 ==> exists|q: int|
                0 <= q < r@.len() && (#[trigger] r@[q]).0@[0] == ch,
{
    let mut keys: Vec<(char, String)> = Vec::new();
    collect_initials(&mut keys, gt, gt_config);
    collect_initials(&mut keys, shown, shown_config);
    let mut r: Vec<(String, i32)> = Vec::new();
    let ghost entries = differing_initials(keys@, gt@, *gt_config, shown@, *shown_config);
    let mut q: usize = 0;
    while q < keys.len()
        invariant
            q <= keys@.len(),
            forall|w: int| 0 <= w < keys@.len() ==> (#[trigger] keys@[w]).1@ == seq![keys@[w].0],
            names_have_ascii_initials(gt@, *gt_config),
            names_have_ascii_initials(shown@, *shown_config),
            gt@.len() <= i32::MAX,
            shown@.len() <= i32::MAX,
            r@.len() == differing_initials(keys@.subrange(0, q as int), gt@, *gt_config, shown@, *shown_config).len(),
            forall|v: int|
                0 <= v < r@.len() ==> {
                    let ch = differing_initials(keys@.subrange(0, q as int), gt@, *gt_config, shown@, *shown_config)[v];
                    &&& (#[trigger] r@[v]).0@ == seq![ch]
                    &&& r@[v].1 == initial_difference(gt@, *gt_config, shown@, *shown_config, ch)
                },
        decreases keys@.len() - q,
    {
        assert(keys@.subrange(0, q + 1).drop_last() =~= keys@.subrange(0, q as int));
        let ch = keys[q].0;
        let a = count_of_initial(gt, gt_config, ch);
        let b = count_of_initial(shown, shown_config, ch);
        let diff = a - b;
        if diff != 0 {
            r.push((keys[q].1.clone(), diff));
        }
        q = q + 1;
    }
    assert(keys@.subrange(0, keys@.len() as int) =~= keys@);
    proof {
        lemma_differing_initials(keys@, gt@, *gt_config, shown@, *shown_config);
        assert forall|ch: char|
            initial_difference(gt@, *gt_config, shown@, *shown_config, ch) != 0 implies exists|q: int|
            0 <= q < r@.len() && (#[trigger] r@[q]).0@[0] == ch by {
            assert(count_initial(gt@, *gt_config, ch) != 0 || count_initial(shown@, *shown_config, ch) != 0);
            assert(has_key(keys@, ch));
            let w = choose|w: int| 0 <= w < keys@.len() && (#[trigger] keys@[w]).0 == ch;
            assert(entries.contains(ch));
            let v = choose|v: int| 0 <= v < entries.len() && entries[v] == ch;
            assert(r@[v].0@[0] == ch);
        }
    }
    r
}

/// The characters of the keys, in order, whose counts differ.
pub open spec fn differing_initials(
    keys: Seq<(char, String)>,
    gt: Seq<usize>,
    gt_config: DynLabelConfig,
    shown: Seq<usize>,
    shown_config: DynLabelConfig,
) -> Seq<char>
    decreases keys.len(),
{
    if keys.len() == 0 {
        seq![]
    } else {
        differing_initials(keys.drop_last(), gt, gt_config, shown, shown_config) + if initial_difference(
            gt,
            gt_config,
            shown,
            shown_config,
            keys.last().0,
        ) != 0 {
            seq![keys.last().0]
        } else {
            seq![]
        }
    }
}

proof fn lemma_differing_initials(
    keys: Seq<(char, String)>,
    gt: Seq<usize>,
    gt_config: DynLabelConfig,
    shown: Seq<usize>,
    shown_config: DynLabelConfig,
)
    requires
        keys_sorted(keys),
    ensures
        ({
            let e = differing_initials(keys, gt, gt_config, shown, shown_config);
            &&& forall|v: int, w: int| 0 <= v < w < e.len() ==> e[v] < e[w]
            &&& forall|v: int|
                0 <= v < e.len() ==> initial_difference(gt, gt_config, shown, shown_config, #[trigger] e[v])
                    != 0
            &&& forall|v: int| 0 <= v < e.len() ==> has_key(keys, #[trigger] e[v])
            &&& forall|w: int|
                0 <= w < keys.len() && initial_difference(gt, gt_config, shown, shown_config, #[trigger] keys[w].0)
                    != 0 ==> e.contains(keys[w].0)
        }),
    decreases keys.len(),
{
    if keys.len() > 0 {
        let front = keys.drop_last();
        assert(keys_sorted(front)) by {
            assert forall|q: int, w: int| 0 <= q < w < front.len() implies front[q].0 < front[w].0 by {
                assert(front[q] == keys[q] && front[w] == keys[w]);
            }
        }
        lemma_differing_initials(front, gt, gt_config, shown, shown_config);
        let ef = differing_initials(front, gt, gt_config, shown, shown_config);
        let e = differing_initials(keys, gt, gt_config, shown, shown_config);
        let last = keys.last().0;
        assert forall|v: int| 0 <= v < ef.len() implies #[trigger] ef[v] < last by {
            assert(has_key(front, ef[v]));
            let w = choose|w: int| 0 <= w < front.len() && (#[trigger] front[w]).0 == ef[v];
            assert(front[w] == keys[w]);
            assert(keys[w].0 < keys[keys.len() - 1].0);
        }
        assert forall|v: int| 0 <= v < e.len() implies has_key(keys, #[trigger] e[v]) by {
            if v < ef.len() {
                assert(e[v] == ef[v]);
                assert(has_key(front, ef[v]));
                let w = choose|w: int| 0 <= w < front.len() && (#[trigger] front[w]).0 == ef[v];
                assert(keys[w] == front[w]);
            } else {
                assert(keys[keys.len() - 1].0 == e[v]);
            }
        }
        assert forall|w: int|
            0 <= w < keys.len() && initial_difference(gt, gt_config, shown, shown_config, #[trigger] keys[w].0)
                != 0 implies e.contains(keys[w].0) by {
            if w < keys.len() - 1 {
                assert(front[w] == keys[w]);
                assert(ef.contains(keys[w].0));
                let v = choose|v: int| 0 <= v < ef.len() && ef[v] == keys[w].0;
                assert(e[v] == ef[v]);
            } else {
                assert(e[e.len() - 1] == last);
            }
        }
        assert forall|v: int| 0 <= v < e.len() implies initial_difference(
            gt,
            gt_config,
            shown,
            shown_config,
            #[trigger] e[v],
        ) != 0 by {
            if v < ef.len() {
                assert(e[v] == ef[v]);
            }
        }
        assert forall|v: int, w: int| 0 <= v < w < e.len() implies e[v] < e[w] by {
            if w < ef.len() {
                assert(e[v] == ef[v] && e[w] == ef[w]);
            } else {
                assert(e[v] == ef[v]);
            }
        }
    }
}

/// One of the keys is `ch`.
pub open spec fn has_key(keys: Seq<(char, String)>, ch: char) -> bool {
    exists|w: int| 0 <= w < keys.len() && (#[trigger] keys[w]).0 == ch
}

/// The keys are in strictly increasing order of their characters.
pub open spec fn keys_sorted(keys: Seq<(char, String)>) -> bool {
    forall|q: int, w: int| 0 <= q < w < keys.len() ==> keys[q].0 < keys[w].0
}

/// How many of the classes have a name that starts with `ch`.
fn count_of_initial(classes: &Vec<usize>, config: &DynLabelConfig, ch: char) -> (r: i32)
    requires
        names_have_ascii_initials(classes@, *config),
        classes@.len() <= i32::MAX,
    ensures
        r == count_initial(classes@, *config, ch),
        0 <= r <= classes@.len(),
{
    let mut c: i32 = 0;
    let mut k: usize = 0;
    while k < classes.len()
        invariant
            k <= classes@.len() <= i32::MAX,
            names_have_ascii_initials(classes@, *config),
            c == count_initial(classes@.subrange(0, k as int), *config, ch),
            0 <= c <= k,
        decreases classes@.len() - k,
    {
        assert(classes@.subrange(0, k + 1).drop_last() =~= classes@.subrange(0, k as int));
        let name = first_char_of_class(config, classes[k]);
        if name == ch {
            c = c + 1;
        }
        k = k + 1;
    }
    assert(classes@.subrange(0, classes@.len() as int) =~= classes@);
    c
}

/// The first character of the name of class `c`.
fn first_char_of_class(config: &DynLabelConfig, c: usize) -> (r: char)
    requires
        c < config@.len(),
        config@[c as int].name@.len() > 0,
    ensures
        r == initial(*config, c),
{
    match config.label_from_usize(c) {
        Some(l) => l.name.as_str().get_char(0),
        None => ' ',
    }
}

/// The first character of the name of class `c`, as a string.
fn initial_text_of_class(config: &DynLabelConfig, c: usize) -> (r: String)
    requires
        c < config@.len(),
        config@[c as int].name@.len() > 0,
    ensures
        r@ == seq![initial(*config, c)],
{
    match config.label_from_usize(c) {
        Some(l) => String::from_str(l.name.as_str().substring_char(0, 1)),
        None => String::new(),
    }
}

proof fn lemma_count_initial_nonzero(classes: Seq<usize>, config: DynLabelConfig, ch: char)
    requires
        count_initial(classes, config, ch) != 0,
    ensures
        exists|k: int| 0 <= k < classes.len() && initial(config, #[trigger] classes[k]) == ch,
    decreases classes.len(),
{
    if classes.len() > 0 {
        if initial(config, classes.last()) == ch {
            assert(initial(config, classes[classes.len() - 1]) == ch);
        } else {
            lemma_count_initial_nonzero(classes.drop_last(), config, ch);
            let k = choose|k: int|
                0 <= k < classes.drop_last().len() && initial(config, #[trigger] classes.drop_last()[k])
                    == ch;
            assert(classes[k] == classes.drop_last()[k]);
        }
    }
}

/// Adds the first characters of the names of the classes to the sorted keys.
fn collect_initials(keys: &mut Vec<(char, String)>, classes: &Vec<usize>, config: &DynLabelConfig)
    requires
        keys_sorted(old(keys)@),
        forall|w: int| 0 <= w < old(keys)@.len() ==> (#[trigger] old(keys)@[w]).1@ == seq![old(keys)@[w].0],
        names_have_ascii_initials(classes@, *config),
    ensures
        keys_sorted(final(keys)@),
        forall|w: int| 0 <= w < final(keys)@.len() ==> (#[trigger] final(keys)@[w]).1@ == seq![final(keys)@[w].0],
        forall|ch: char| has_key(old(keys)@, ch) ==> #[trigger] has_key(final(keys)@, ch),
        forall|ch: char| #[trigger] count_initial(classes@, *config, ch) != 0 ==> has_key(final(keys)@, ch),
{
    let ghost start = keys@;
    let mut k: usize = 0;
    while k < classes.len()
        invariant
            k <= classes@.len(),
            names_have_ascii_initials(classes@, *config),
            keys_sorted(keys@),
            forall|w: int| 0 <= w < keys@.len() ==> (#[trigger] keys@[w]).1@ == seq![keys@[w].0],
            forall|ch: char| has_key(start, ch) ==> #[trigger] has_key(keys@, ch),
            forall|j: int| 0 <= j < k ==> has_key(keys@, initial(*config, #[trigger] classes@[j])),
        decreases classes@.len() - k,
    {
        let c = classes[k];
        let ch = first_char_of_class(config, c);
        let ghost before = keys@;
        insert_key(keys, ch, config, c);
        proof {
            assert forall|ch2: char| has_key(start, ch2) implies #[trigger] has_key(keys@, ch2) by {
                assert(has_key(before, ch2));
            }
            assert forall|j: int| 0 <= j < k + 1 implies has_key(keys@, initial(*config, #[trigger] classes@[j])) by {
                if j < k {
                    assert(has_key(before, initial(*config, classes@[j])));
                }
            }
        }
        k = k + 1;
    }
    proof {
        assert forall|ch: char| #[trigger] count_initial(classes@, *config, ch) != 0 implies has_key(keys@, ch) by {
            lemma_count_initial_nonzero(classes@, *config, ch);
            let j = choose|j: int| 0 <= j < classes@.len() && initial(*config, #[trigger] classes@[j]) == ch;
            assert(has_key(keys@, initial(*config, classes@[j])));
        }
    }
}

/// Puts `ch` among the sorted keys, unless it is there already.
fn insert_key(keys: &mut Vec<(char, String)>, ch: char, config: &DynLabelConfig, c: usize)
    requires
        keys_sorted(old(keys)@),
        forall|w: int| 0 <= w < old(keys)@.len() ==> (#[trigger] old(keys)@[w]).1@ == seq![old(keys)@[w].0],
        c < config@.len(),
        config@[c as int].name@.len() > 0,
        ch == initial(*config, c),
    ensures
        keys_sorted(final(keys)@),
        forall|w: int| 0 <= w < final(keys)@.len() ==> (#[trigger] final(keys)@[w]).1@ == seq![final(keys)@[w].0],
        forall|ch2: char| has_key(old(keys)@, ch2) ==> #[trigger] has_key(final(keys)@, ch2),
        has_key(final(keys)@, ch),
{
    let mut pos: usize = 0;
    while pos < keys.len() && keys[pos].0 < ch
        invariant
            pos <= keys@.len(),
            forall|w: int| 0 <= w < pos ==> (#[trigger] keys@[w]).0 < ch,
        decreases keys@.len() - pos,
    {
        pos = pos + 1;
    }
    if pos < keys.len() && keys[pos].0 == ch {
        assert(keys@[pos as int].0 == ch);
        assert(has_key(keys@, ch));
        return;
    }
    let ghost before = keys@;
    let text = initial_text_of_class(config, c);
    keys.insert(pos, (ch, text));
    proof {
        assert(keys@ == before.insert(pos as int, (ch, text)));
        assert(keys@[pos as int].0 == ch);
        assert forall|q: int, w: int| 0 <= q < w < keys@.len() implies keys@[q].0 < keys@[w].0 by {
            if w < pos {
            } else if w == pos {
                assert(keys@[q] == before[q]);
            } else if q < pos {
                assert(keys@[w] == before[w - 1]);
                if pos < before.len() {
                    assert(before[pos as int].0 >= ch);
                    if w - 1 > pos {
                        assert(before[pos as int].0 < before[w - 1].0);
                    }
                }
            } else if q == pos {
                assert(keys@[w] == before[w - 1]);
                assert(before[pos as int].0 >= ch);
                assert(before[pos as int].0 != ch);
                if w - 1 > pos {
                    assert(before[pos as int].0 < before[w - 1].0);
                }
            } else {
                assert(keys@[w] == before[w - 1]);
                assert(keys@[q] == before[q - 1]);
            }
        }
        assert forall|ch2: char| has_key(before, ch2) implies #[trigger] has_key(keys@, ch2) by {
            let w = choose|w: int| 0 <= w < before.len() && (#[trigger] before[w]).0 == ch2;
            if w < pos {
                assert(keys@[w] == before[w]);
            } else {
                assert(keys@[w + 1] == before[w]);
            }
        }
        assert(has_key(keys@, ch));
    }
}


/// `a` comes before `b` in the order of file names: character by character,
/// by code point, a name before the names it begins.
pub open spec fn name_before(a: Seq<char>, b: Seq<char>) -> bool
    decreases a.len(),
{
    if a.len() == 0 {
        b.len() > 0
    } else if b.len() == 0 {
        false
    } else if a[0] != b[0] {
        (a[0] as int) < (b[0] as int)
    } else {
        name_before(a.skip(1), b.skip(1))
    }
}

/// The names in order: none comes before one that precedes it.
pub open spec fn names_in_order(names: Seq<Seq<char>>) -> bool {
    forall|i: int, j: int| 0 <= i < j < names.len() ==> !name_before(#[trigger] names[j], #[trigger] names[i])
}

/// The names of the entries that are directories of predictions, in the
/// order of the entries.
pub open spec fn prediction_names(names: Seq<Seq<char>>, is_dir: Seq<bool>) -> Seq<Seq<char>>
    decreases names.len(),
{
    if names.len() == 0 || is_dir.len() != names.len() {
        seq![]
    } else {
        prediction_names(names.drop_last(), is_dir.drop_last()) + if is_dir.last() && names.last()
            != seq!['n', 'o', 'r', 'm', 'a', 'l'] {
            seq![names.last()]
        } else {
            seq![]
        }
    }
}

proof fn lemma_name_before_transitive(a: Seq<char>, b: Seq<char>, c: Seq<char>)
    requires
        name_before(a, b),
        name_before(b, c),
    ensures
        name_before(a, c),
    decreases a.len(),
{
    if a.len() > 0 && b.len() > 0 && c.len() > 0 && a[0] == b[0] && b[0] == c[0] {
        lemma_name_before_transitive(a.skip(1), b.skip(1), c.skip(1));
    }
}

proof fn lemma_name_before_irreflexive(a: Seq<char>)
    ensures
        !name_before(a, a),
    decreases a.len(),
{
    if a.len() > 0 {
        lemma_name_before_irreflexive(a.skip(1));
    }
}

/// Whether `a` comes before `b` (see `name_before`).
fn name_less(a: &str, b: &str) -> (r: bool)
    ensures
        r == name_before(a@, b@),
{
    let alen = a.unicode_len();
    let blen = b.unicode_len();
    let mut k: usize = 0;
    assert(a@.skip(0) =~= a@ && b@.skip(0) =~= b@);
    while k < alen && k < blen
        invariant
            alen == a@.len(),
            blen == b@.len(),
            k <= alen,
            k <= blen,
            name_before(a@, b@) == name_before(a@.skip(k as int), b@.skip(k as int)),
        decreases alen - k,
    {
        let ca = a.get_char(k);
        let cb = b.get_char(k);
        assert(a@.skip(k as int)[0] == ca && b@.skip(k as int)[0] == cb);
        if ca != cb {
            return (ca as u32) < (cb as u32);
        }
        assert(a@.skip(k as int).skip(1) =~= a@.skip(k + 1));
        assert(b@.skip(k as int).skip(1) =~= b@.skip(k + 1));
        k = k + 1;
    }
    k < blen
}

/// The prediction directories among the entries of a directory: the
/// entries that are directories (`is_dir`) and are not `normal`, ordered by
/// name.
pub fn prediction_dirs(names: Vec<String>, is_dir: &Vec<bool>) -> (r: Vec<String>)
    requires
        names@.len() == is_dir@.len(),
    ensures
        names_in_order(views(r@)),
        views(r@).to_multiset() == prediction_names(views(names@), is_dir@).to_multiset(),
{
    let ghost all = views(names@);
    let n = names.len();
    let mut picked: Vec<String> = Vec::new();
    let mut rest = names;
    let mut k: usize = 0;
    assert(all.subrange(0, n as int) =~= all);
    assert(all.subrange(0, 0) =~= Seq::<Seq<char>>::empty());
    while k < n
        invariant
            n == all.len(),
            n == is_dir@.len(),
            k <= n,
            views(rest@) == all.subrange(k as int, n as int),
            rest@.len() == n - k,
            views(picked@) == prediction_names(all.subrange(0, k as int), is_dir@.subrange(0, k as int)),
        decreases n - k,
    {
        let ghost rest_before = rest@;
        let name = rest.remove(0);
        proof {
            assert(views(rest_before)[0] == all.subrange(k as int, n as int)[0]);
            assert(name@ == all[k as int]);
            assert forall|i: int| 0 <= i < rest@.len() implies views(rest@)[i] == all.subrange(k + 1, n as int)[i] by {
                assert(rest@[i] == rest_before[i + 1]);
                assert(views(rest_before)[i + 1] == all.subrange(k as int, n as int)[i + 1]);
            }
            assert(views(rest@) =~= all.subrange(k + 1, n as int));
            assert(all.subrange(0, k + 1).drop_last() =~= all.subrange(0, k as int));
            assert(is_dir@.subrange(0, k + 1).drop_last() =~= is_dir@.subrange(0, k as int));
            reveal_strlit("normal");
        }
        let ghost before = views(picked@);
        if is_dir[k] && is_prediction_dir(name.as_str()) {
            picked.push(name);
            assert(views(picked@) =~= before + seq![all[k as int]]);
        }
        k = k + 1;
    }
    assert(all.subrange(0, n as int) =~= all);
    assert(is_dir@.subrange(0, n as int) =~= is_dir@);
    let ghost want = views(picked@);
    let mut sorted: Vec<String> = Vec::new();
    let m = picked.len();
    let mut j: usize = 0;
    assert(want.subrange(0, m as int) =~= want);
    assert(views(sorted@) =~= want.subrange(0, 0));
    while j < m
        invariant
            m == want.len(),
            j <= m,
            views(picked@) == want.subrange(j as int, m as int),
            picked@.len() == m - j,
            names_in_order(views(sorted@)),
            views(sorted@).to_multiset() == want.subrange(0, j as int).to_multiset(),
        decreases m - j,
    {
        let ghost picked_before = picked@;
        let x = picked.remove(0);
        proof {
            assert(views(picked_before)[0] == want.subrange(j as int, m as int)[0]);
            assert(x@ == want[j as int]);
            assert forall|i: int| 0 <= i < picked@.len() implies views(picked@)[i] == want.subrange(j + 1, m as int)[i] by {
                assert(picked@[i] == picked_before[i + 1]);
                assert(views(picked_before)[i + 1] == want.subrange(j as int, m as int)[i + 1]);
            }
            assert(views(picked@) =~= want.subrange(j + 1, m as int));
        }
        let mut p: usize = 0;
        while p < sorted.len() && !name_less(x.as_str(), sorted[p].as_str())
            invariant
                p <= sorted@.len(),
                forall|i: int| 0 <= i < p ==> !name_before(x@, #[trigger] sorted@[i]@),
            decreases sorted@.len() - p,
        {
            p = p + 1;
        }
        let ghost old_views = views(sorted@);
        let ghost old_sorted = sorted@;
        let ghost xv = x@;
        sorted.insert(p, x);
        proof {
            let nv = views(sorted@);
            assert(nv =~= old_views.subrange(0, p as int) + seq![xv] + old_views.subrange(p as int, old_views.len() as int));
            assert forall|a: int, b: int| 0 <= a < b < nv.len() implies !name_before(#[trigger] nv[b], #[trigger] nv[a]) by {
                if a < p && b == p {
                    assert(nv[a] == old_views[a]);
                    assert(old_views[a] == old_sorted[a]@);
                    assert(!name_before(xv, old_sorted[a]@));
                } else if a == p && b > p {
                    assert(nv[b] == old_views[b - 1]);
                    if p < old_views.len() {
                        assert(name_before(xv, old_views[p as int]));
                        if name_before(nv[b], xv) {
                            lemma_name_before_transitive(nv[b], xv, old_views[p as int]);
                            if b - 1 > p {
                                assert(!name_before(old_views[b - 1], old_views[p as int]));
                            } else {
                                lemma_name_before_irreflexive(old_views[p as int]);
                            }
                        }
                    }
                } else {
                    let oa = if a < p { a } else { a - 1 };
                    let ob = if b < p { b } else { b - 1 };
                    assert(nv[a] == old_views[oa]);
                    assert(nv[b] == old_views[ob]);
                }
            }
            let lo = old_views.subrange(0, p as int);
            let hi = old_views.subrange(p as int, old_views.len() as int);
            assert(old_views =~= lo + hi);
            vstd::seq_lib::lemma_multiset_commutative(lo + seq![xv], hi);
            vstd::seq_lib::lemma_multiset_commutative(lo, seq![xv]);
            vstd::seq_lib::lemma_multiset_commutative(lo, hi);
            assert(want.subrange(0, j + 1) =~= want.subrange(0, j as int).push(xv));
            want.subrange(0, j as int).to_multiset_ensures();
            seq![xv].to_multiset_ensures();
            assert(seq![xv] =~= Seq::<Seq<char>>::empty().push(xv));
            Seq::<Seq<char>>::empty().to_multiset_ensures();
            assert(nv.to_multiset() =~= want.subrange(0, j + 1).to_multiset());
        }
        j = j + 1;
    }
    assert(want.subrange(0, m as int) =~= want);
    sorted
}


/// `a` and `b` agree before position `k`, and at `k` the character of `a`
/// has the lower code point.
pub open spec fn lower_at(a: Seq<char>, b: Seq<char>, k: int) -> bool {
    &&& 0 <= k < a.len()
    &&& k < b.len()
    &&& a.subrange(0, k) == b.subrange(0, k)
    &&& (a[k] as int) < (b[k] as int)
}

/// The order of names is the lexicographic order of their characters by
/// code point, whatever their lengths: `a` comes before `b` when, at the
/// first place they differ, `a` has the lower character, or when `a` is a
/// proper beginning of `b`. Of two different names exactly one comes first.
pub proof fn law_name_order_is_lexicographic(a: Seq<char>, b: Seq<char>)
    ensures
        name_before(a, b) <==> ((exists|k: int| #[trigger] lower_at(a, b, k)) || (a.len() < b.len()
            && b.subrange(0, a.len() as int) == a)),
        a != b ==> name_before(a, b) || name_before(b, a),
        !(name_before(a, b) && name_before(b, a)),
    decreases a.len(),
{
    if a.len() == 0 {
        assert(b.subrange(0, 0) =~= a);
        if b.len() == 0 {
            assert(a =~= b);
        }
    } else if b.len() == 0 {
    } else if a[0] != b[0] {
        if (a[0] as int) < (b[0] as int) {
            assert(a.subrange(0, 0) =~= b.subrange(0, 0));
            assert(lower_at(a, b, 0));
        }
        if exists|k: int| #[trigger] lower_at(a, b, k) {
            let k = choose|k: int| #[trigger] lower_at(a, b, k);
            if k > 0 {
                assert(a.subrange(0, k)[0] == b.subrange(0, k)[0]);
            }
        }
        if a.len() < b.len() && b.subrange(0, a.len() as int) == a {
            assert(b.subrange(0, a.len() as int)[0] == a[0]);
        }
    } else {
        let a1 = a.skip(1);
        let b1 = b.skip(1);
        law_name_order_is_lexicographic(a1, b1);
        if exists|k: int| #[trigger] lower_at(a1, b1, k) {
            let k = choose|k: int| #[trigger] lower_at(a1, b1, k);
            assert(a.subrange(0, k + 1) =~= seq![a[0]] + a1.subrange(0, k));
            assert(b.subrange(0, k + 1) =~= seq![b[0]] + b1.subrange(0, k));
            assert(lower_at(a, b, k + 1));
        }
        if exists|k: int| #[trigger] lower_at(a, b, k) {
            let k = choose|k: int| #[trigger] lower_at(a, b, k);
            assert(k != 0);
            assert(a1.subrange(0, k - 1) =~= a.subrange(0, k).skip(1));
            assert(b1.subrange(0, k - 1) =~= b.subrange(0, k).skip(1));
            assert(lower_at(a1, b1, k - 1));
        }
        if a1.len() < b1.len() && b1.subrange(0, a1.len() as int) == a1 {
            assert(b.subrange(0, a.len() as int) =~= seq![b[0]] + b1.subrange(0, a1.len() as int));
            assert(a =~= seq![a[0]] + a1);
        }
        if a.len() < b.len() && b.subrange(0, a.len() as int) == a {
            assert(b1.subrange(0, a1.len() as int) =~= b.subrange(0, a.len() as int).skip(1));
        }
        if a != b {
            if a1 == b1 {
                assert(a =~= seq![a[0]] + a1);
                assert(b =~= seq![b[0]] + b1);
            }
        }
    }
}

} // verus!
