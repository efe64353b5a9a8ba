//! Finding doubtful labels by comparing the labels that several models gave
//! the same images, and suggesting labels that combine them.
use crate::check::{hits, is_matrix, lemma_hits_in_range, overlapping_pairs, rows, Overlap};
use crate::dataset::{
    alphanumeric_order, label_name_for, sorted_datapoints, views, DatasetError, DynLabelConfig,
    LabelOnDisk,
};
use crate::paths::{contains, contains_seq, file_name_of, same_text};
use vstd::prelude::*;

verus! {

#[derive(Clone, Copy, Debug, PartialEq, Eq, Structural)]
pub enum Model {
    YoloV7,
    YoloV8,
}

/// What the classes of a labeling distinguish: value and suit (52
/// classes), value only (13) or suit only (4).
#[derive(Clone, Copy, Debug, PartialEq, Eq, Structural)]
pub enum LabelType {
    ValueSuit,
    Value,
    Suit,
}

#[derive(Clone, Copy, Debug, PartialEq, Eq, Structural)]
pub enum Augmentation {
    PreciseBBox,
    InpreciseBBox,
}

/// How a labeling was made.
#[derive(Clone, Copy, Debug, PartialEq, Eq, Structural)]
pub struct Metadata {
    pub model: Model,
    pub label_type: LabelType,
    pub augmentation: Augmentation,
}

/// The number of classes of a label type.
pub open spec fn class_count(t: LabelType) -> usize {
    match t {
        LabelType::ValueSuit => 52,
        LabelType::Value => 13,
        LabelType::Suit => 4,
    }
}

pub open spec fn yolov7_text() -> Seq<char> {
    seq!['y', 'o', 'l', 'o', 'v', '7']
}

pub open spec fn only_suit_text() -> Seq<char> {
    seq!['o', 'n', 'l', 'y', '_', 's', 'u', 'i', 't']
}

pub open spec fn rot_text() -> Seq<char> {
    seq!['r', 'o', 't']
}

/// The metadata that a directory name announces.
pub open spec fn metadata_of(dirname: Seq<char>) -> Metadata {
    Metadata {
        model: if contains_seq(dirname, yolov7_text()) {
            Model::YoloV7
        } else {
            Model::YoloV8
        },
        label_type: if contains_seq(dirname, yolov7_text()) {
            LabelType::Value
        } else if contains_seq(dirname, only_suit_text()) {
            LabelType::Suit
        } else {
            LabelType::ValueSuit
        },
        augmentation: if contains_seq(dirname, rot_text()) {
            Augmentation::InpreciseBBox
        } else {
            Augmentation::PreciseBBox
        },
    }
}

impl LabelType {
    /// Folds every class number into the classes of this label type.
    pub fn cast(&self, label: &mut Vec<usize>)
        ensures
            final(label)@.len() == old(label)@.len(),
            forall|k: int|
                0 <= k < old(label)@.len() ==> #[trigger] final(label)@[k] == old(label)@[k] % class_count(
                    *self,
                ),
    {
        let max_usize: usize = match self {
            LabelType::ValueSuit => 13 * 4,
            LabelType::Value => 13,
            LabelType::Suit => 4,
        };
        let ghost start = label@;
        let mut k: usize = 0;
        while k < label.len()
            invariant
                label@.len() == start.len(),
                max_usize == class_count(*self),
                k <= label@.len(),
                forall|m: int| 0 <= m < k ==> #[trigger] label@[m] == start[m] % class_count(*self),
                forall|m: int| k <= m < label@.len() ==> #[trigger] label@[m] == start[m],
            decreases label@.len() - k,
        {
            let c = label[k] % max_usize;
            label.set(k, c);
            k = k + 1;
        }
    }

    /// The label configuration file of this label type.
    pub fn config_filename(&self) -> (r: &'static str)
        ensures
            *self == LabelType::Value ==> r@ == seq![
                'l',
                'a',
                'b',
                'e',
                'l',
                's',
                '_',
                '1',
                '3',
                '.',
                't',
                'o',
                'm',
                'l',
            ],
            *self == LabelType::ValueSuit ==> r@ == seq![
                'l',
                'a',
                'b',
                'e',
                'l',
                's',
                '_',
                '5',
                '2',
                '.',
                't',
                'o',
                'm',
                'l',
            ],
            *self == LabelType::Suit ==> r@ == seq![
                'l',
                'a',
                'b',
                'e',
                'l',
                's',
                '_',
                's',
                'u',
                'i',
                't',
                '.',
                't',
                'o',
                'm',
                'l',
            ],
    {
        proof {
            reveal_strlit("labels_13.toml");
            reveal_strlit("labels_52.toml");
            reveal_strlit("labels_suit.toml");
        }
        match self {
            LabelType::Value => "labels_13.toml",
            LabelType::ValueSuit => "labels_52.toml",
            LabelType::Suit => "labels_suit.toml",
        }
    }
}

impl Metadata {
    /// Reads the metadata from a directory name: `yolov7` names the older
    /// model, whose classes are values only; `only_suit` names suit classes;
    /// `rot` names rotated (imprecise) boxes.
    pub fn from_dirname(dirname: &str) -> (m: Metadata)
        ensures
            m == metadata_of(dirname@),
    {
        proof {
            reveal_strlit("yolov7");
            reveal_strlit("only_suit");
            reveal_strlit("rot");
            assert("yolov7"@ =~= yolov7_text());
            assert("only_suit"@ =~= only_suit_text());
            assert("rot"@ =~= rot_text());
        }
        let v7 = contains(dirname, "yolov7");
        let model = if v7 {
            Model::YoloV7
        } else {
            Model::YoloV8
        };
        let label_type = if v7 {
            LabelType::Value
        } else if contains(dirname, "only_suit") {
            LabelType::Suit
        } else {
            LabelType::ValueSuit
        };
        let augmentation = if contains(dirname, "rot") {
            Augmentation::InpreciseBBox
        } else {
            Augmentation::PreciseBBox
        };
        Metadata { model, label_type, augmentation }
    }
}

/// The labels that one model gave a set of images.
pub struct Dataset {
    pub name: String,
    pub points: Vec<LabelOnDisk>,
    pub metadata: Metadata,
    pub config: DynLabelConfig,
}

impl Dataset {
    /// The label files at `txt_paths`, sorted alphanumerically, each its own
    /// label file in `labels_dir`; an error when there is none.
    pub fn load_points(labels_dir: &str, txt_paths: Vec<String>) -> (r: Result<
        Vec<LabelOnDisk>,
        DatasetError,
    >)
        requires
            forall|k: int|
                0 <= k < txt_paths@.len() ==> file_name_of(#[trigger] txt_paths@[k]@) is Some
                    && txt_paths@[k]@.len() < i64::MAX,
        ensures
            txt_paths@.len() == 0 <==> r is Err,
            r matches Ok(data) ==> {
                &&& data@.len() == txt_paths@.len()
                &&& forall|k: int|
                    0 <= k < data@.len() ==> {
                        &&& (#[trigger] data@[k])@.img == file_name_of(
                            alphanumeric_order(views(txt_paths@))[k],
                        ).unwrap()
                        &&& data@[k]@.label_dir == labels_dir@
                        &&& data@[k]@.label_name == label_name_for(data@[k]@.img)
                    }
            },
    {
        let data = sorted_datapoints(labels_dir, txt_paths);
        if data.len() == 0 {
            Err(DatasetError::Empty)
        } else {
            Ok(data)
        }
    }

    /// The dataset in directory `dirname`, with the metadata its name
    /// announces.
    pub fn from_dir(dirname: &str, points: Vec<LabelOnDisk>, config: DynLabelConfig) -> (d: Dataset)
        ensures
            d.name@ == dirname@,
            d.points@ == points@,
            d.metadata == metadata_of(dirname@),
            d.config@ == config@,
    {
        let metadata = Metadata::from_dirname(dirname);
        Dataset { name: String::from_str(dirname), points, metadata, config }
    }
}

pub open spec fn normal_text() -> Seq<char> {
    seq!['n', 'o', 'r', 'm', 'a', 'l']
}

/// The datasets whose name is not `normal`, in order.
pub open spec fn augmented_of(names: Seq<Seq<char>>) -> Seq<int>
    decreases names.len(),
{
    if names.len() == 0 {
        seq![]
    } else {
        augmented_of(names.drop_last()) + if names.last() != normal_text() {
            seq![names.len() - 1]
        } else {
            seq![]
        }
    }
}

/// The labels of the images, by the reference labeling (`normal`) and by the
/// others.
pub struct ShadyFinder {
    pub normal_dataset: Dataset,
    pub augmented: Vec<Dataset>,
}

pub open spec fn dataset_names(ds: Seq<Dataset>) -> Seq<Seq<char>> {
    ds.map_values(|d: Dataset| d.name@)
}

impl ShadyFinder {
    /// Sorts the datasets of a directory: the one named `normal` is the
    /// reference (the last, should there be several), the others are
    /// compared to it. There must be a dataset named `normal`.
    pub fn new(datasets: Vec<Dataset>) -> (f: ShadyFinder)
        requires
            dataset_names(datasets@).contains(normal_text()),
        ensures
            f.normal_dataset.name@ == normal_text(),
            exists|k: int|
                0 <= k < datasets@.len() && datasets@[k] == f.normal_dataset && forall|m: int|
                    k < m < datasets@.len() ==> (#[trigger] datasets@[m]).name@ != normal_text(),
            f.augmented@ == augmented_of(dataset_names(datasets@)).map_values(|k: int| datasets@[k]),
    {
        let ghost all = datasets@;
        let ghost names = dataset_names(all);
        let mut normal: Option<Dataset> = None;
        let ghost mut normal_at: int = -1;
        let mut augmented: Vec<Dataset> = Vec::new();
        let mut rest = datasets;
        let n = rest.len();
        let mut k: usize = 0;
        while k < n
            invariant
                n == all.len(),
                names == dataset_names(all),
                k <= n,
                rest@ == all.subrange(k as int, n as int),
                augmented@ == augmented_of(names.subrange(0, k as int)).map_values(|j: int| all[j]),
                normal is None <==> !names.subrange(0, k as int).contains(normal_text()),
                normal matches Some(d) ==> {
                    &&& 0 <= normal_at < k
                    &&& all[normal_at] == d
                    &&& d.name@ == normal_text()
                    &&& forall|m: int| normal_at < m < k ==> (#[trigger] all[m]).name@ != normal_text()
                },
            decreases n - k,
        {
            proof {
                reveal_strlit("normal");
                assert("normal"@ =~= normal_text());
            }
            let d = rest.remove(0);
            assert(d == all[k as int]);
            let ghost prefix = names.subrange(0, k + 1);
            assert(prefix.drop_last() =~= names.subrange(0, k as int));
            assert(names[k as int] == d.name@);
            if same_text(d.name.as_str(), "normal") {
                proof {
                    normal_at = k as int;
                    assert(prefix.contains(normal_text()) ) by {
                        assert(prefix[k as int] == normal_text());
                    }
                }
                normal = Some(d);
            } else {
                proof {
                    if names.subrange(0, k as int).contains(normal_text()) {
                        let w = choose|w: int| 0 <= w < k && names.subrange(0, k as int)[w] == normal_text();
                        assert(prefix[w] == normal_text());
                    }
                    if prefix.contains(normal_text()) {
                        let w = choose|w: int| 0 <= w <= k && prefix[w] == normal_text();
                        if w < k {
                            assert(names.subrange(0, k as int)[w] == normal_text());
                        }
                    }
                }
                augmented.push(d);
            }
            assert(augmented@ =~= augmented_of(prefix).map_values(|j: int| all[j]));
            k = k + 1;
        }
        assert(names.subrange(0, n as int) =~= names);
        ShadyFinder { normal_dataset: normal.unwrap(), augmented }
    }
}


/// A box that a suggestion takes from the reference labeling, with the class
/// it gets.
#[derive(Clone, Copy, Debug, PartialEq, Eq, Structural)]
pub struct SuggestedBox {
    pub base_index: usize,
    pub class_num: usize,
}

/// The labels that the labelings gave one image, with their metadata.
pub struct MultipleLabels {
    pub normal_index: usize,
    pub labels: Vec<(Vec<usize>, Metadata)>,
}

/// The class numbers of each labeling.
pub open spec fn classes_of(labels: Seq<(Vec<usize>, Metadata)>) -> Seq<Seq<usize>> {
    labels.map_values(|l: (Vec<usize>, Metadata)| l.0@)
}

/// The indices `k < n` whose labeling satisfies `p`, in order.
pub open spec fn indices_where(labels: Seq<(Vec<usize>, Metadata)>, p: spec_fn(Metadata) -> bool, n: nat) -> Seq<usize>
    decreases n,
{
    if n == 0 {
        seq![]
    } else {
        indices_where(labels, p, (n - 1) as nat) + if p(labels[n - 1].1) {
            seq![(n - 1) as usize]
        } else {
            seq![]
        }
    }
}

pub open spec fn is_yolov7(m: Metadata) -> bool {
    m.model == Model::YoloV7
}

pub open spec fn is_suit_only(m: Metadata) -> bool {
    m.label_type == LabelType::Suit
}

/// The class that combines the value of a value box with the suit of a suit
/// box.
pub open spec fn combined_class(value_class: usize, suit_class: usize) -> usize {
    ((suit_class % 4) * 13 + value_class % 13) as usize
}

/// The suggestion from one suit labeling: every pair of a base box and a suit
/// box that overlap, as the base box with the combined class.
pub open spec fn suggestion_from(
    base: Seq<usize>,
    suit: Seq<usize>,
    m: Seq<Seq<Overlap>>,
) -> Seq<SuggestedBox> {
    hits(m, base.len(), suit.len()).map_values(
        |p: (usize, usize)|
            SuggestedBox { base_index: p.0, class_num: combined_class(base[p.0 as int], suit[p.1 as int]) },
    )
}

/// The longest of the candidates; the last of them where several are
/// longest.
pub open spec fn longest_last(cands: Seq<Seq<SuggestedBox>>) -> Seq<SuggestedBox>
    decreases cands.len(),
{
    if cands.len() <= 1 {
        cands[0]
    } else {
        let prev = longest_last(cands.drop_last());
        if cands.last().len() >= prev.len() {
            cands.last()
        } else {
            prev
        }
    }
}

impl MultipleLabels {
    /// The labelings whose metadata passes `filter`, as indices in order.
    pub fn labels_for<F: Fn(&Metadata) -> bool>(&self, filter: F) -> (r: Vec<usize>)
        requires
            forall|m: &Metadata| #[trigger] filter.requires((m,)),
        ensures
            forall|q: int| 0 <= q < r@.len() ==> #[trigger] r@[q] < self.labels@.len(),
            forall|q: int, w: int| 0 <= q < w < r@.len() ==> r@[q] < r@[w],
            forall|q: int|
                0 <= q < r@.len() ==> filter.ensures((&self.labels@[#[trigger] r@[q] as int].1,), true),
            forall|k: int|
                0 <= k < self.labels@.len() && !r@.contains(k as usize) ==> filter.ensures(
                    (&self.labels@[k].1,),
                    false,
                ),
    {
        let mut r: Vec<usize> = Vec::new();
        let mut k: usize = 0;
        while k < self.labels.len()
            invariant
                k <= self.labels@.len(),
                forall|m: &Metadata| #[trigger] filter.requires((m,)),
                forall|q: int| 0 <= q < r@.len() ==> #[trigger] r@[q] < k,
                forall|q: int, w: int| 0 <= q < w < r@.len() ==> r@[q] < r@[w],
                forall|q: int|
                    0 <= q < r@.len() ==> filter.ensures((&self.labels@[#[trigger] r@[q] as int].1,), true),
                forall|j: int|
                    0 <= j < k && !r@.contains(j as usize) ==> filter.ensures(
                        (&self.labels@[j].1,),
                        false,
                    ),
            decreases self.labels@.len() - k,
        {
            let keep = filter(&self.labels[k].1);
            let ghost before = r@;
            if keep {
                r.push(k);
                assert(r@[r@.len() - 1] == k);
                assert forall|j: int| 0 <= j <= k && !r@.contains(j as usize) implies filter.ensures(
                    (&self.labels@[j].1,),
                    false,
                ) by {
                    if j == k {
                        assert(r@.contains(k as usize));
                    } else if before.contains(j as usize) {
                        let w = choose|w: int| 0 <= w < before.len() && before[w] == j as usize;
                        assert(r@[w] == j as usize);
                    }
                }
            } else {
                assert(filter.ensures((&self.labels@[k as int].1,), false));
                assert forall|j: int| 0 <= j <= k && !r@.contains(j as usize) implies filter.ensures(
                    (&self.labels@[j].1,),
                    false,
                ) by {
                }
            }
            k = k + 1;
        }
        r
    }

    /// The suggested label of the image: the first value-only labeling
    /// (YOLOv7) is the base; for each suit-only labeling, every base box that
    /// overlaps one of its boxes is suggested with the combined class; the
    /// suggestion with the most boxes wins (the last of equally long ones).
    /// `overlaps[k][i][j]` says how box `i` of the base overlaps box `j` of
    /// labeling `k`.
    pub fn suggested_label(&self, overlaps: &Vec<Vec<Vec<Overlap>>>) -> (r: Vec<SuggestedBox>)
        requires
            indices_where(self.labels@, |m: Metadata| is_yolov7(m), self.labels@.len()).len() > 0,
            indices_where(self.labels@, |m: Metadata| is_suit_only(m), self.labels@.len()).len() > 0,
            overlaps@.len() == self.labels@.len(),
            forall|k: int|
                0 <= k < self.labels@.len() ==> is_matrix(
                    rows(#[trigger] overlaps@[k]@),
                    self.labels@[indices_where(self.labels@, |m: Metadata| is_yolov7(m), self.labels@.len())[0] as int].0@.len() as int,
                    self.labels@[k].0@.len() as int,
                ),
        ensures
            ({
                let base = indices_where(self.labels@, |m: Metadata| is_yolov7(m), self.labels@.len())[0] as int;
                let suits = indices_where(self.labels@, |m: Metadata| is_suit_only(m), self.labels@.len());
                r@ == longest_last(
                    suits.map_values(
                        |k: usize|
                            suggestion_from(
                                self.labels@[base].0@,
                                self.labels@[k as int].0@,
                                rows(overlaps@[k as int]@),
                            ),
                    ),
                )
            }),
    {
        let ghost v7 = |m: Metadata| is_yolov7(m);
        let ghost suit = |m: Metadata| is_suit_only(m);
        let v7_labels = self.labels_for(made_by_yolov7);
        proof {
            assert(self.labels@.len() == self.labels.len());
            assert forall|k: int| 0 <= k < self.labels@.len() && v7(#[trigger] self.labels@[k].1) implies v7_labels@.contains(
                k as usize,
            ) by {
                if !v7_labels@.contains(k as usize) {
                    assert(call_ensures(made_by_yolov7, (&self.labels@[k].1,), false));
                }
            }
            assert forall|q: int| 0 <= q < v7_labels@.len() implies v7(self.labels@[#[trigger] v7_labels@[q] as int].1) by {
                assert(call_ensures(made_by_yolov7, (&self.labels@[v7_labels@[q] as int].1,), true));
            }
            lemma_indices_where_exact(self.labels@, v7, v7_labels@, self.labels@.len());
        }
        let base_k = v7_labels[0];
        let only_suit = self.labels_for(labels_suits_only);
        proof {
            assert forall|k: int| 0 <= k < self.labels@.len() && suit(#[trigger] self.labels@[k].1) implies only_suit@.contains(
                k as usize,
            ) by {
                if !only_suit@.contains(k as usize) {
                    assert(call_ensures(labels_suits_only, (&self.labels@[k].1,), false));
                }
            }
            assert forall|q: int| 0 <= q < only_suit@.len() implies suit(self.labels@[#[trigger] only_suit@[q] as int].1) by {
                assert(call_ensures(labels_suits_only, (&self.labels@[only_suit@[q] as int].1,), true));
            }
            lemma_indices_where_exact(self.labels@, suit, only_suit@, self.labels@.len());
        }
        let base = &self.labels[base_k].0;
        let ghost cands = only_suit@.map_values(
            |k: usize|
                suggestion_from(
                    self.labels@[base_k as int].0@,
                    self.labels@[k as int].0@,
                    rows(overlaps@[k as int]@),
                ),
        );
        let mut best: Vec<SuggestedBox> = Vec::new();
        let mut q: usize = 0;
        while q < only_suit.len()
            invariant
                q <= only_suit@.len(),
                only_suit@.len() > 0,
                base@ == self.labels@[base_k as int].0@,
                base_k < self.labels@.len(),
                overlaps@.len() == self.labels@.len(),
                forall|w: int| 0 <= w < only_suit@.len() ==> #[trigger] only_suit@[w] < self.labels@.len(),
                forall|k: int|
                    0 <= k < self.labels@.len() ==> is_matrix(
                        rows(#[trigger] overlaps@[k]@),
                        base@.len() as int,
                        self.labels@[k].0@.len() as int,
                    ),
                cands == only_suit@.map_values(
                    |k: usize|
                        suggestion_from(
                            self.labels@[base_k as int].0@,
                            self.labels@[k as int].0@,
                            rows(overlaps@[k as int]@),
                        ),
                ),
                q > 0 ==> best@ == longest_last(cands.subrange(0, q as int)),
            decreases only_suit@.len() - q,
        {
            let k = only_suit[q];
            let suit_label = &self.labels[k].0;
            let pairs = overlapping_pairs(&overlaps[k], base.len(), suit_label.len());
            proof {
                assert(base@.len() == base.len() && suit_label@.len() == suit_label.len());
                lemma_hits_in_range(rows(overlaps@[k as int]@), base@.len(), suit_label@.len());
            }
            let mut label: Vec<SuggestedBox> = Vec::new();
            let mut p: usize = 0;
            while p < pairs.len()
                invariant
                    p <= pairs@.len(),
                    forall|w: int|
                        0 <= w < pairs@.len() ==> (#[trigger] pairs@[w]).0 < base@.len() && pairs@[w].1
                            < suit_label@.len(),
                    label@.len() == p,
                    forall|w: int|
                        0 <= w < p ==> #[trigger] label@[w] == (SuggestedBox {
                            base_index: pairs@[w].0,
                            class_num: combined_class(base@[pairs@[w].0 as int], suit_label@[pairs@[w].1 as int]),
                        }),
                decreases pairs@.len() - p,
            {
                let (value_i, suit_j) = pairs[p];
                let suit_class = suit_label[suit_j] % 4;
                let value_class = base[value_i] % 13;
                label.push(SuggestedBox { base_index: value_i, class_num: suit_class * 13 + value_class });
                p = p + 1;
            }
            assert(label@ =~= cands[q as int]);
            let ghost seen = cands.subrange(0, q + 1);
            assert(seen.drop_last() =~= cands.subrange(0, q as int));
            if q == 0 || label.len() >= best.len() {
                best = label;
            }
            q = q + 1;
        }
        assert(cands.subrange(0, only_suit@.len() as int) =~= cands);
        best
    }
}

/// Whether a labeling comes from the YOLOv7 model.
fn made_by_yolov7(m: &Metadata) -> (b: bool)
    ensures
        b == is_yolov7(*m),
{
    m.model == Model::YoloV7
}

/// Whether a labeling has suit classes only.
fn labels_suits_only(m: &Metadata) -> (b: bool)
    ensures
        b == is_suit_only(*m),
{
    m.label_type == LabelType::Suit
}

/// A list of indices below `n` that is strictly increasing and holds
/// exactly the indices whose labeling satisfies `p` is the list that
/// `indices_where` gives.
pub proof fn lemma_indices_where_exact(
    labels: Seq<(Vec<usize>, Metadata)>,
    p: spec_fn(Metadata) -> bool,
    r: Seq<usize>,
    n: nat,
)
    requires
        n <= labels.len(),
        n <= usize::MAX,
        forall|q: int| 0 <= q < r.len() ==> #[trigger] r[q] < n,
        forall|q: int, w: int| 0 <= q < w < r.len() ==> r[q] < r[w],
        forall|q: int| 0 <= q < r.len() ==> p(labels[#[trigger] r[q] as int].1),
        forall|k: int| 0 <= k < n && p(#[trigger] labels[k].1) ==> r.contains(k as usize),
    ensures
        r == indices_where(labels, p, n),
    decreases n,
{
    if n == 0 {
        if r.len() > 0 {
            assert(r[0] < 0);
        }
        assert(r =~= Seq::<usize>::empty());
    } else {
        let last = (n - 1) as usize;
        if p(labels[n - 1].1) {
            assert(r.contains(last));
            let w = choose|w: int| 0 <= w < r.len() && r[w] == last;
            assert(w == r.len() - 1) by {
                if w < r.len() - 1 {
                    assert(r[w] < r[r.len() - 1]);
                }
            }
            let front = r.drop_last();
            assert forall|q: int| 0 <= q < front.len() implies #[trigger] front[q] < n - 1 by {
                assert(r[q] < r[r.len() - 1]);
            }
            assert forall|k: int| 0 <= k < n - 1 && p(#[trigger] labels[k].1) implies front.contains(
                k as usize,
            ) by {
                assert(r.contains(k as usize));
                let v = choose|v: int| 0 <= v < r.len() && r[v] == k as usize;
                assert(v < r.len() - 1);
                assert(front[v] == k as usize);
            }
            lemma_indices_where_exact(labels, p, front, (n - 1) as nat);
            assert(r =~= front + seq![last]);
        } else {
            assert forall|q: int| 0 <= q < r.len() implies #[trigger] r[q] < n - 1 by {
                assert(p(labels[r[q] as int].1));
            }
            lemma_indices_where_exact(labels, p, r, (n - 1) as nat);
            assert(indices_where(labels, p, n) =~= indices_where(labels, p, (n - 1) as nat));
        }
    }
}

/// Every suggested box keeps the value of its base box, takes the suit of a
/// suit box, and has one of the 52 combined classes.
pub proof fn law_suggested_classes(value_class: usize, suit_class: usize)
    ensures
        combined_class(value_class, suit_class) < 52,
        combined_class(value_class, suit_class) % 13 == value_class % 13,
        combined_class(value_class, suit_class) / 13 == suit_class % 4,
{
}

/// Folding class numbers into a label type leaves them among its classes,
/// and folding twice is folding once.
pub proof fn law_cast_is_idempotent(t: LabelType, c: usize)
    ensures
        c % class_count(t) < class_count(t),
        (c % class_count(t)) % class_count(t) == c % class_count(t),
{
    match t {
        LabelType::ValueSuit => {},
        LabelType::Value => {},
        LabelType::Suit => {},
    }
}


/// `word` stands somewhere in `name`.
pub open spec fn names_word(name: Seq<char>, word: Seq<char>) -> bool {
    exists|i: int| 0 <= i && i + word.len() <= name.len() && #[trigger] name.subrange(i, i + word.len()) == word
}

proof fn lemma_contains_is_names_word(name: Seq<char>, word: Seq<char>)
    ensures
        contains_seq(name, word) <==> names_word(name, word),
{
    if contains_seq(name, word) {
        let i = choose|i: int| crate::paths::occurs_at(name, word, i);
        assert(name.subrange(i, i + word.len()) == word);
    }
    if names_word(name, word) {
        let i = choose|i: int| 0 <= i && i + word.len() <= name.len() && #[trigger] name.subrange(i, i + word.len()) == word;
        assert(crate::paths::occurs_at(name, word, i));
    }
}

/// Each part of a directory name announces one thing, whatever else the name
/// holds: `rot` (rotated, so imprecise boxes) the augmentation, `yolov7` the
/// older model with value classes, `only_suit` (without `yolov7`) suit
/// classes; any other name is YOLOv8 with value-and-suit classes and precise
/// boxes.
pub proof fn law_dirname_parts_are_independent(name: Seq<char>)
    ensures
        metadata_of(name).augmentation == Augmentation::InpreciseBBox <==> names_word(name, seq!['r', 'o', 't']),
        metadata_of(name).augmentation == Augmentation::PreciseBBox <==> !names_word(name, seq!['r', 'o', 't']),
        metadata_of(name).model == Model::YoloV7 <==> names_word(name, seq!['y', 'o', 'l', 'o', 'v', '7']),
        metadata_of(name).model == Model::YoloV8 <==> !names_word(name, seq!['y', 'o', 'l', 'o', 'v', '7']),
        metadata_of(name).label_type == LabelType::Value <==> names_word(name, seq!['y', 'o', 'l', 'o', 'v', '7']),
        metadata_of(name).label_type == LabelType::Suit <==> (!names_word(name, seq!['y', 'o', 'l', 'o', 'v', '7'])
            && names_word(name, seq!['o', 'n', 'l', 'y', '_', 's', 'u', 'i', 't'])),
{
    lemma_contains_is_names_word(name, rot_text());
    lemma_contains_is_names_word(name, yolov7_text());
    lemma_contains_is_names_word(name, only_suit_text());
    assert(rot_text() == seq!['r', 'o', 't']);
    assert(yolov7_text() == seq!['y', 'o', 'l', 'o', 'v', '7']);
    assert(only_suit_text() == seq!['o', 'n', 'l', 'y', '_', 's', 'u', 'i', 't']);
}

} // verus!
